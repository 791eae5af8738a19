use vstd::prelude::*;
use crate::lanes::replace_ps_m32x4;
use crate::party::AllyPartyStatusType;
use crate::zone::{activation, activation_spec, lane_of, lane_of_spec, opening_lanes, Activation};

verus! {

/// The position of a status kind among the seven.
pub open spec fn kind_index_spec(k: AllyPartyStatusType) -> int {
    match k {
        AllyPartyStatusType::Working => 0,
        AllyPartyStatusType::Researching => 1,
        AllyPartyStatusType::Battling => 2,
        AllyPartyStatusType::Resting => 3,
        AllyPartyStatusType::Drinking => 4,
        AllyPartyStatusType::Exploring => 5,
        AllyPartyStatusType::Idle => 6,
    }
}

/// The position of a status kind among the seven.
pub fn kind_index(k: AllyPartyStatusType) -> (r: usize)
    ensures
        r == kind_index_spec(k),
        r < 7,
{
    match k {
        AllyPartyStatusType::Working => 0,
        AllyPartyStatusType::Researching => 1,
        AllyPartyStatusType::Battling => 2,
        AllyPartyStatusType::Resting => 3,
        AllyPartyStatusType::Drinking => 4,
        AllyPartyStatusType::Exploring => 5,
        AllyPartyStatusType::Idle => 6,
    }
}

/// The lanes of one status: which hold an ally at work, and which ally.
pub type StatusLanes = ([bool; 4], [Option<u32>; 4]);

/// The lanes of a status as sequences.
pub type LanesModel = (Seq<bool>, Seq<Option<u32>>);

/// The lanes of a status as sequences.
pub open spec fn lanes_model(l: StatusLanes) -> LanesModel {
    (l.0@, l.1@)
}

/// Whether any lane of a status holds an ally at work.
pub open spec fn lanes_busy(l: LanesModel) -> bool {
    l.0[0] || l.0[1] || l.0[2] || l.0[3]
}

/// The kind of a status an ally works under, if any.
pub open spec fn kind_of(s: Option<(AllyPartyStatusType, usize)>) -> Option<AllyPartyStatusType> {
    match s {
        Some((k, _)) => Some(k),
        None => None,
    }
}

/// The lanes of the statuses after the ally `ally` leaves the lane it
/// holds in the status `cur` points at, if it holds one.
pub open spec fn leave_lane(
    ls: Seq<Seq<LanesModel>>,
    cur: Option<(AllyPartyStatusType, usize)>,
    ally: u32,
) -> Seq<Seq<LanesModel>> {
    match cur {
        Some((k, at)) => {
            let ki = kind_index_spec(k);
            let l = ls[ki][at as int];
            match lane_of_spec(l.1, ally) {
                Some(i) => ls.update(ki, ls[ki].update(at as int, (l.0.update(i as int, false), l.1))),
                None => ls,
            }
        },
        None => ls,
    }
}

/// The allies of a zone and the statuses they work under: for each ally,
/// the kind and position of its status; for each of the seven kinds, its
/// statuses' lanes and progress.
#[derive(Clone, Debug)]
pub struct Roster<P> {
    status: Vec<Option<(AllyPartyStatusType, usize)>>,
    lanes: Vec<Vec<StatusLanes>>,
    progress: Vec<Vec<P>>,
}

impl<P> Roster<P> {
    /// The status of each ally, by its number.
    pub closed spec fn status_view(&self) -> Seq<Option<(AllyPartyStatusType, usize)>> {
        self.status@
    }

    /// The lanes of the statuses of each kind, by the kind's position.
    pub closed spec fn lanes_view(&self) -> Seq<Seq<LanesModel>> {
        self.lanes@.map_values(|v: Vec<StatusLanes>| v@.map_values(|l: StatusLanes| lanes_model(l)))
    }

    /// The progress of the statuses of each kind, by the kind's position.
    pub closed spec fn progress_view(&self) -> Seq<Seq<P>> {
        self.progress@.map_values(|v: Vec<P>| v@)
    }

    /// Seven kinds, a progress for each status, and every ally's status
    /// there.
    pub open spec fn wf(&self) -> bool {
        let ls = self.lanes_view();
        &&& ls.len() == 7
        &&& self.progress_view().len() == 7
        &&& forall|k: int| 0 <= k < 7 ==> #[trigger] ls[k].len() == self.progress_view()[k].len()
        &&& forall|a: int|
            0 <= a < self.status_view().len() ==> match #[trigger] self.status_view()[a] {
                Some((k, at)) => at < ls[kind_index_spec(k)].len(),
                None => true,
            }
    }

    /// No ally, and no status of any kind.
    pub fn new() -> (r: Roster<P>)
        ensures
            r.wf(),
            r.status_view() == Seq::<Option<(AllyPartyStatusType, usize)>>::empty(),
            r.lanes_view() == Seq::new(7, |k: int| Seq::<LanesModel>::empty()),
    {
        let mut lanes: Vec<Vec<StatusLanes>> = Vec::new();
        let mut progress: Vec<Vec<P>> = Vec::new();
        let mut k: usize = 0;
        while k < 7
            invariant
                k <= 7,
                lanes@.len() == k,
                progress@.len() == k,
                forall|j: int| 0 <= j < k ==> (#[trigger] lanes@[j])@.len() == 0,
                forall|j: int| 0 <= j < k ==> (#[trigger] progress@[j])@.len() == 0,
            decreases 7 - k,
        {
            lanes.push(Vec::new());
            progress.push(Vec::new());
            k = k + 1;
        }
        let r = Roster { status: Vec::new(), lanes, progress };
        assert forall|k: int| 0 <= k < 7 implies r.lanes_view()[k] =~= Seq::<LanesModel>::empty() by {
            assert(lanes@[k]@.len() == 0);
        }
        assert(r.lanes_view() =~= Seq::new(7, |k: int| Seq::<LanesModel>::empty()));
        r
    }

    /// Adds an ally without a status, and gives its number.
    pub fn add_ally(&mut self) -> (r: u32)
        requires
            old(self).wf(),
            old(self).status_view().len() < u32::MAX,
        ensures
            final(self).wf(),
            r == old(self).status_view().len(),
            final(self).status_view() == old(self).status_view().push(None),
            final(self).lanes_view() == old(self).lanes_view(),
            final(self).progress_view() == old(self).progress_view(),
    {
        let r = self.status.len() as u32;
        self.status.push(None);
        r
    }

    /// The status the ally `ally` works under.
    pub fn status_of(&self, ally: u32) -> (r: Option<(AllyPartyStatusType, usize)>)
        requires
            ally < self.status_view().len(),
        ensures
            r == self.status_view()[ally as int],
    {
        self.status[ally as usize]
    }

    /// The number of statuses of a kind.
    pub fn status_count(&self, kind: AllyPartyStatusType) -> (r: usize)
        requires
            self.wf(),
        ensures
            r == self.lanes_view()[kind_index_spec(kind)].len(),
    {
        self.lanes[kind_index(kind)].len()
    }

    /// The lanes of the status of `kind` at `at`.
    pub fn lanes_at(&self, kind: AllyPartyStatusType, at: usize) -> (r: StatusLanes)
        requires
            self.wf(),
            at < self.lanes_view()[kind_index_spec(kind)].len(),
        ensures
            lanes_model(r) == self.lanes_view()[kind_index_spec(kind)][at as int],
    {
        self.lanes[kind_index(kind)][at]
    }
    /// Whether each status of a kind has an ally at work.
    fn busy_lanes(&self, ki: usize) -> (r: Vec<bool>)
        requires
            self.wf(),
            ki < 7,
        ensures
            r@ == self.lanes_view()[ki as int].map_values(|l: LanesModel| lanes_busy(l)),
    {
        let mut r: Vec<bool> = Vec::new();
        let n = self.lanes[ki].len();
        let mut j: usize = 0;
        while j < n
            invariant
                self.wf(),
                ki < 7,
                n == self.lanes_view()[ki as int].len(),
                0 <= j <= n,
                r@ == self.lanes_view()[ki as int].take(j as int).map_values(
                    |l: LanesModel| lanes_busy(l),
                ),
            decreases n - j,
        {
            let l = self.lanes[ki][j];
            assert(self.lanes_view()[ki as int][j as int] == lanes_model(l));
            let b = l.0[0] || l.0[1] || l.0[2] || l.0[3];
            r.push(b);
            assert(self.lanes_view()[ki as int].take(j + 1) =~= self.lanes_view()[ki as int].take(
                j as int,
            ).push(lanes_model(l)));
            assert(r@ =~= self.lanes_view()[ki as int].take(j + 1).map_values(
                |l: LanesModel| lanes_busy(l),
            ));
            j = j + 1;
        }
        assert(self.lanes_view()[ki as int].take(n as int) =~= self.lanes_view()[ki as int]);
        r
    }

    /// Sets an ally to work at a status of kind `start`. Nothing changes
    /// where its status is of that kind already. Otherwise it is pointed at
    /// the last status of that kind with an ally at work, where there is
    /// one; where there is none, a status is opened with the ally in its
    /// first lane and `fresh` progress, and the ally leaves the lane it held.
    pub fn activate(&mut self, ally: u32, start: AllyPartyStatusType, fresh: P)
        requires
            old(self).wf(),
            ally < old(self).status_view().len(),
        ensures
            final(self).wf(),
            ({
                let st = old(self).status_view();
                let ls = old(self).lanes_view();
                let ps = old(self).progress_view();
                let ki = kind_index_spec(start);
                let busy = ls[ki].map_values(|l: LanesModel| lanes_busy(l));
                match activation_spec(kind_of(st[ally as int]), start, busy) {
                    Activation::Unchanged => {
                        &&& final(self).status_view() == st
                        &&& final(self).lanes_view() == ls
                        &&& final(self).progress_view() == ps
                    },
                    Activation::Join(i) => {
                        &&& final(self).status_view() == st.update(ally as int, Some((start, i)))
                        &&& final(self).lanes_view() == ls
                        &&& final(self).progress_view() == ps
                    },
                    Activation::Open => {
                        &&& final(self).status_view() == st.update(
                            ally as int,
                            Some((start, ls[ki].len() as usize)),
                        )
                        &&& final(self).lanes_view() == leave_lane(
                            ls.update(
                                ki,
                                ls[ki].push(
                                    (
                                        seq![true, false, false, false],
                                        seq![Some(ally), None, None, None],
                                    ),
                                ),
                            ),
                            st[ally as int],
                            ally,
                        )
                        &&& final(self).progress_view() == ps.update(ki, ps[ki].push(fresh))
                    },
                }
            }),
    {
        let ghost st = self.status_view();
        let ghost ls = self.lanes_view();
        let ghost ps = self.progress_view();
        let cur = self.status[ally as usize];
        let ki = kind_index(start);
        let busy = self.busy_lanes(ki);
        let current_kind = match cur {
            Some((k, _)) => Some(k),
            None => None,
        };
        match activation(current_kind, start, &busy) {
            Activation::Unchanged => {},
            Activation::Join(i) => {
                self.status.set(ally as usize, Some((start, i)));
                assert forall|a: int| 0 <= a < self.status_view().len() implies match #[trigger] self.status_view()[a] {
                    Some((k, at)) => at < self.lanes_view()[kind_index_spec(k)].len(),
                    None => true,
                } by {
                    if a != ally {
                        assert(self.status_view()[a] == st[a]);
                    }
                }
            },
            Activation::Open => {
                let (assigned, refs) = opening_lanes(ally);
                let n = self.lanes[ki].len();
                self.lanes[ki].push((assigned, refs));
                self.progress[ki].push(fresh);
                let ghost ls1 = ls.update(
                    ki as int,
                    ls[ki as int].push(
                        (seq![true, false, false, false], seq![Some(ally), None, None, None]),
                    ),
                );
                assert(self.lanes_view() =~= ls1) by {
                    assert(self.lanes_view()[ki as int] =~= ls1[ki as int]);
                }
                assert(self.progress_view() =~= ps.update(ki as int, ps[ki as int].push(fresh))) by {
                    assert(self.progress_view()[ki as int] =~= ps[ki as int].push(fresh));
                }
                match cur {
                    Some((k, at)) => {
                        let kk = kind_index(k);
                        let (a, r) = self.lanes[kk][at];
                        assert(ls1[kk as int][at as int] == (a@, r@));
                        match lane_of(&r, ally) {
                            Some(l) => {
                                let a2 = replace_ps_m32x4(a, false, l);
                                self.lanes[kk].set(at, (a2, r));
                                assert(self.lanes_view() =~= leave_lane(ls1, cur, ally)) by {
                                    assert(self.lanes_view()[kk as int] =~= leave_lane(
                                        ls1,
                                        cur,
                                        ally,
                                    )[kk as int]);
                                }
                            },
                            None => {},
                        }
                    },
                    None => {},
                }
                self.status.set(ally as usize, Some((start, n)));
                assert forall|a: int| 0 <= a < self.status_view().len() implies match #[trigger] self.status_view()[a] {
                    Some((k, at)) => at < self.lanes_view()[kind_index_spec(k)].len(),
                    None => true,
                } by {
                    if a != ally {
                        assert(self.status_view()[a] == st[a]);
                    }
                }
            },
        }
    }

    /// Takes an ally off its status: where it holds a lane there, the lane
    /// is freed, the ally keeps no status, and the kind and position of the
    /// status and the lane are handed back (its progress is to be reset);
    /// otherwise nothing changes.
    pub fn deactivate(&mut self, ally: u32) -> (r: Option<(AllyPartyStatusType, usize, usize)>)
        requires
            old(self).wf(),
            ally < old(self).status_view().len(),
        ensures
            final(self).wf(),
            final(self).progress_view() == old(self).progress_view(),
            ({
                let st = old(self).status_view();
                let ls = old(self).lanes_view();
                match st[ally as int] {
                    Some((k, at)) => match lane_of_spec(ls[kind_index_spec(k)][at as int].1, ally) {
                        Some(i) => {
                            &&& r == Some((k, at, i))
                            &&& final(self).status_view() == st.update(ally as int, None)
                            &&& final(self).lanes_view() == leave_lane(ls, st[ally as int], ally)
                        },
                        None => {
                            &&& r is None
                            &&& final(self).status_view() == st
                            &&& final(self).lanes_view() == ls
                        },
                    },
                    None => {
                        &&& r is None
                        &&& final(self).status_view() == st
                        &&& final(self).lanes_view() == ls
                    },
                }
            }),
    {
        let ghost st = self.status_view();
        let ghost ls = self.lanes_view();
        match self.status[ally as usize] {
            Some((k, at)) => {
                let kk = kind_index(k);
                let (a, refs) = self.lanes[kk][at];
                assert(ls[kk as int][at as int] == (a@, refs@));
                match lane_of(&refs, ally) {
                    Some(i) => {
                        let a2 = replace_ps_m32x4(a, false, i);
                        self.lanes[kk].set(at, (a2, refs));
                        assert(self.lanes_view() =~= leave_lane(ls, st[ally as int], ally)) by {
                            assert(self.lanes_view()[kk as int] =~= leave_lane(
                                ls,
                                st[ally as int],
                                ally,
                            )[kk as int]);
                        }
                        self.status.set(ally as usize, None);
                        assert forall|a: int| 0 <= a < self.status_view().len() implies match #[trigger] self.status_view()[a] {
                            Some((k, at)) => at < self.lanes_view()[kind_index_spec(k)].len(),
                            None => true,
                        } by {
                            if a != ally {
                                assert(self.status_view()[a] == st[a]);
                            }
                        }
                        Some((k, at, i))
                    },
                    None => None,
                }
            },
            None => None,
        }
    }

    /// The progress of the status of `kind` at `at`.
    pub fn progress_at(&self, kind: AllyPartyStatusType, at: usize) -> (r: &P)
        requires
            self.wf(),
            at < self.lanes_view()[kind_index_spec(kind)].len(),
        ensures
            *r == self.progress_view()[kind_index_spec(kind)][at as int],
    {
        &self.progress[kind_index(kind)][at]
    }

    /// Sets the progress of the status of `kind` at `at`.
    pub fn set_progress(&mut self, kind: AllyPartyStatusType, at: usize, p: P)
        requires
            old(self).wf(),
            at < old(self).lanes_view()[kind_index_spec(kind)].len(),
        ensures
            final(self).wf(),
            final(self).status_view() == old(self).status_view(),
            final(self).lanes_view() == old(self).lanes_view(),
            final(self).progress_view() == old(self).progress_view().update(
                kind_index_spec(kind),
                old(self).progress_view()[kind_index_spec(kind)].update(at as int, p),
            ),
    {
        let ghost ps = self.progress_view();
        let ki = kind_index(kind);
        self.progress[ki].set(at, p);
        assert(self.progress_view() =~= ps.update(ki as int, ps[ki as int].update(at as int, p)))
            by {
            assert(self.progress_view()[ki as int] =~= ps[ki as int].update(at as int, p));
        }
    }
}

/// An ally that opens a new status holds its first lane there alone; taken
/// off again, it leaves that status with no ally at work.
pub proof fn law_open_then_leave(
    st: Seq<Option<(AllyPartyStatusType, usize)>>,
    ls: Seq<Seq<LanesModel>>,
    ally: u32,
    start: AllyPartyStatusType,
)
    requires
        ls.len() == 7,
        ally < st.len(),
        ls[kind_index_spec(start)].len() < usize::MAX,
        match st[ally as int] {
            Some((k, at)) => at < ls[kind_index_spec(k)].len(),
            None => true,
        },
        activation_spec(
            kind_of(st[ally as int]),
            start,
            ls[kind_index_spec(start)].map_values(|l: LanesModel| lanes_busy(l)),
        ) == Activation::Open,
    ensures
        ({
            let ki = kind_index_spec(start);
            let n = ls[ki].len() as int;
            let opened = leave_lane(
                ls.update(
                    ki,
                    ls[ki].push((seq![true, false, false, false], seq![Some(ally), None, None, None])),
                ),
                st[ally as int],
                ally,
            );
            let st1 = st.update(ally as int, Some((start, n as usize)));
            &&& opened[ki][n] == (seq![true, false, false, false], seq![Some(ally), None, None, None])
            &&& lane_of_spec(opened[ki][n].1, ally) == Some(0usize)
            &&& !lanes_busy(leave_lane(opened, st1[ally as int], ally)[ki][n])
        }),
{
    let ki = kind_index_spec(start);
    let n = ls[ki].len() as int;
    let ls1 = ls.update(
        ki,
        ls[ki].push((seq![true, false, false, false], seq![Some(ally), None, None, None])),
    );
    match st[ally as int] {
        Some((k, at)) => {
            assert(k != start);
            assert(kind_index_spec(k) != ki);
        },
        None => {},
    }
    let opened = leave_lane(ls1, st[ally as int], ally);
    assert(opened[ki][n] == ls1[ki][n]);
    let after = leave_lane(opened, Some((start, n as usize)), ally);
    assert(after[ki][n].0 =~= seq![false, false, false, false]);
}

} // verus!
