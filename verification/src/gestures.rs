//! Touch gestures: which contacts are down, and when one finger's touch is a
//! tap or a pan. Distances are the caller's: it reports, for a drag that has
//! not chosen an axis yet, whether the finger has left the slop circle and
//! which way it went.
use vstd::prelude::*;

verus! {

/// One finger on one device.
#[derive(Clone, Copy, Debug, PartialEq, Eq, Structural)]
pub struct Contact {
    pub device: u64,
    pub finger: u64,
}

/// Where a touch is in its life.
#[derive(Clone, Copy, Debug, PartialEq, Eq, Structural)]
pub enum TouchPhase {
    Started,
    Moved,
    Ended,
    Cancelled,
}

/// The one-finger touch being followed.
#[derive(Clone, Copy, Debug, PartialEq, Eq, Structural)]
pub struct Drag<T> {
    pub id: Contact,
    /// The axis the drag locked to once it left the slop circle: `true` for
    /// horizontal.
    pub axis: Option<bool>,
    /// What the touch began on.
    pub target: T,
}

/// What a touch turned out to be.
#[derive(Clone, Copy, Debug, PartialEq, Eq, Structural)]
pub enum Gesture<T> {
    /// A touch that lifted without leaving the slop circle.
    Tap(T),
    /// A drag locked to one axis: `true` for horizontal.
    Pan(T, bool),
}

/// The contacts that are down and the drag being followed.
pub struct Recognizer<T> {
    pub contacts: Vec<Contact>,
    pub drag: Option<Drag<T>>,
}

/// No contact is listed twice.
pub open spec fn distinct_contacts(c: Seq<Contact>) -> bool {
    forall|i: int, j: int| 0 <= i < j < c.len() ==> c[i] != c[j]
}

/// `c` without `id`.
pub open spec fn lifted(c: Seq<Contact>, id: Contact) -> Seq<Contact>
    decreases c.len(),
{
    if c.len() == 0 {
        seq![]
    } else {
        lifted(c.drop_last(), id) + if c.last() != id {
            seq![c.last()]
        } else {
            seq![]
        }
    }
}

/// The drag and the gesture after one update of the followed contact.
/// `moved` is whether the finger has left the slop circle, and which way.
pub open spec fn step<T>(d: Drag<T>, phase: TouchPhase, moved: Option<bool>) -> (
    Option<Drag<T>>,
    Option<Gesture<T>>,
) {
    if phase == TouchPhase::Cancelled {
        (None, None)
    } else {
        let axis = if d.axis is None {
            moved
        } else {
            d.axis
        };
        let ending = phase == TouchPhase::Ended;
        let gesture = match axis {
            Some(h) => Some(Gesture::Pan(d.target, h)),
            None => if ending {
                Some(Gesture::Tap(d.target))
            } else {
                None
            },
        };
        (
            if ending {
                None
            } else {
                Some(Drag { axis, ..d })
            },
            gesture,
        )
    }
}

impl<T: Copy> Recognizer<T> {
    /// What the recognizer keeps true: each contact once, and a drag only
    /// for a contact that is down.
    pub open spec fn wf(&self) -> bool {
        &&& distinct_contacts(self.contacts@)
        &&& self.drag matches Some(d) ==> self.contacts@.contains(d.id)
    }

    /// No contact is down.
    pub fn new() -> (r: Self)
        ensures
            r.wf(),
            r.contacts@.len() == 0,
            r.drag is None,
    {
        Recognizer { contacts: Vec::new(), drag: None }
    }

    /// A finger touched `target`. The first finger down starts a drag; any
    /// further finger ends it, so two fingers are never a tap or a pan.
    pub fn begin(&mut self, id: Contact, target: T)
        requires
            old(self).wf(),
        ensures
            final(self).wf(),
            final(self).contacts@ == if old(self).contacts@.contains(id) {
                old(self).contacts@
            } else {
                old(self).contacts@.push(id)
            },
            final(self).drag == if old(self).contacts@.len() == 0 {
                Some(Drag { id, axis: None, target })
            } else {
                None
            },
    {
        let first = self.contacts.len() == 0;
        if !self.holds(id) {
            let ghost before = self.contacts@;
            self.contacts.push(id);
            proof {
                assert forall|i: int, j: int| 0 <= i < j < self.contacts@.len() implies self.contacts@[i]
                    != self.contacts@[j] by {
                    if j == before.len() {
                        assert(self.contacts@[i] == before[i]);
                        assert(!before.contains(id));
                    }
                }
            }
        }
        self.drag = if first {
            Some(Drag { id, axis: None, target })
        } else {
            None
        };
        proof {
            if first {
                assert(self.contacts@[self.contacts@.len() - 1] == id);
            }
        }
    }

    fn holds(&self, id: Contact) -> (r: bool)
        ensures
            r == self.contacts@.contains(id),
    {
        let mut i: usize = 0;
        while i < self.contacts.len()
            invariant
                i <= self.contacts@.len(),
                forall|k: int| 0 <= k < i ==> self.contacts@[k] != id,
            decreases self.contacts.len() - i,
        {
            if self.contacts[i] == id {
                return true;
            }
            i = i + 1;
        }
        false
    }

    fn lift(&mut self, id: Contact)
        requires
            distinct_contacts(old(self).contacts@),
        ensures
            final(self).contacts@ == lifted(old(self).contacts@, id),
            distinct_contacts(final(self).contacts@),
            !final(self).contacts@.contains(id),
            forall|x: Contact| x != id ==> (final(self).contacts@.contains(x) <==> old(
                self,
            ).contacts@.contains(x)),
            final(self).drag == old(self).drag,
    {
        let ghost all = self.contacts@;
        let mut kept: Vec<Contact> = Vec::new();
        let mut i: usize = 0;
        while i < self.contacts.len()
            invariant
                all == self.contacts@,
                i <= all.len(),
                kept@ == lifted(all.take(i as int), id),
            decreases self.contacts.len() - i,
        {
            let c = self.contacts[i];
            proof {
                assert(all.take(i + 1).drop_last() =~= all.take(i as int));
                assert(all.take(i + 1).last() == c);
            }
            if c != id {
                kept.push(c);
            }
            proof {
                assert(kept@ =~= lifted(all.take(i + 1), id));
            }
            i = i + 1;
        }
        proof {
            assert(all.take(all.len() as int) =~= all);
            lemma_lifted(all, id);
        }
        self.contacts = kept;
    }

    /// A contact moved, lifted or was cancelled; `moved` says whether it
    /// left the slop circle, and which way. Only the followed contact can make
    /// a gesture: it pans once it has chosen an axis, taps when it lifts
    /// without one, and never does either once cancelled.
    pub fn update(&mut self, id: Contact, phase: TouchPhase, moved: Option<bool>) -> (r: Option<
        Gesture<T>,
    >)
        requires
            old(self).wf(),
        ensures
            final(self).wf(),
            !old(self).contacts@.contains(id) ==> r is None && final(self).contacts@ == old(
                self,
            ).contacts@ && final(self).drag == old(self).drag,
            old(self).contacts@.contains(id) ==> {
                &&& final(self).contacts@ == if phase == TouchPhase::Ended || phase
                    == TouchPhase::Cancelled {
                    lifted(old(self).contacts@, id)
                } else {
                    old(self).contacts@
                }
                &&& match old(self).drag {
                    Some(d) => if d.id == id {
                        (final(self).drag, r) == step(d, phase, moved)
                    } else {
                        final(self).drag == old(self).drag && r is None
                    },
                    None => final(self).drag is None && r is None,
                }
            },
    {
        if !self.holds(id) {
            return None;
        }
        let ending = phase == TouchPhase::Ended || phase == TouchPhase::Cancelled;
        if ending {
            self.lift(id);
        }
        let d = match self.drag {
            Some(d) => d,
            None => {
                return None;
            },
        };
        if d.id != id {
            return None;
        }
        if phase == TouchPhase::Cancelled {
            self.drag = None;
            return None;
        }
        let axis = if d.axis.is_none() {
            moved
        } else {
            d.axis
        };
        let result = match axis {
            Some(h) => Some(Gesture::Pan(d.target, h)),
            None => if phase == TouchPhase::Ended {
                Some(Gesture::Tap(d.target))
            } else {
                None
            },
        };
        self.drag = if phase == TouchPhase::Ended {
            None
        } else {
            Some(Drag { axis, ..d })
        };
        result
    }
}

proof fn lemma_lifted(c: Seq<Contact>, id: Contact)
    requires
        distinct_contacts(c),
    ensures
        distinct_contacts(lifted(c, id)),
        !lifted(c, id).contains(id),
        forall|x: Contact| x != id ==> (lifted(c, id).contains(x) <==> c.contains(x)),
    decreases c.len(),
{
    if c.len() > 0 {
        let b = c.drop_last();
        assert(distinct_contacts(b)) by {
            assert forall|i: int, j: int| 0 <= i < j < b.len() implies b[i] != b[j] by {
                assert(b[i] == c[i] && b[j] == c[j]);
            }
        }
        lemma_lifted(b, id);
        let lb = lifted(b, id);
        let l = lifted(c, id);
        if c.last() != id {
            assert(l =~= lb.push(c.last()));
            assert(!b.contains(c.last())) by {
                if b.contains(c.last()) {
                    let k = choose|k: int| 0 <= k < b.len() && b[k] == c.last();
                    assert(c[k] == c[c.len() - 1]);
                }
            }
            assert forall|i: int, j: int| 0 <= i < j < l.len() implies l[i] != l[j] by {
                if j == lb.len() {
                    assert(l[i] == lb[i]);
                    if l[i] == l[j] {
                        assert(lb.contains(c.last()));
                    }
                }
            }
            assert forall|x: Contact| x != id implies (l.contains(x) <==> c.contains(x)) by {
                if c.contains(x) && x != c.last() {
                    let k = choose|k: int| 0 <= k < c.len() && c[k] == x;
                    assert(b[k] == x);
                    assert(b.contains(x));
                    let t = choose|t: int| 0 <= t < lb.len() && lb[t] == x;
                    assert(l[t] == x);
                }
                if c.contains(x) && x == c.last() {
                    assert(l[lb.len() as int] == x);
                }
                if l.contains(x) {
                    let t = choose|t: int| 0 <= t < l.len() && l[t] == x;
                    if t < lb.len() {
                        assert(lb[t] == x);
                        assert(lb.contains(x));
                        assert(b.contains(x));
                        let k = choose|k: int| 0 <= k < b.len() && b[k] == x;
                        assert(c[k] == x);
                    } else {
                        assert(c[c.len() - 1] == x);
                    }
                }
            }
        } else {
            assert(l =~= lb);
            assert forall|x: Contact| x != id implies (l.contains(x) <==> c.contains(x)) by {
                if c.contains(x) {
                    let k = choose|k: int| 0 <= k < c.len() && c[k] == x;
                    assert(k < b.len());
                    assert(b[k] == x);
                }
                if b.contains(x) {
                    let k = choose|k: int| 0 <= k < b.len() && b[k] == x;
                    assert(c[k] == x);
                }
            }
        }
    }
}

/// A drag that has chosen an axis never turns into a tap: lifting it pans,
/// and a cancelled touch makes no gesture at all.
pub proof fn a_drag_never_activates_on_release<T>(d: Drag<T>, moved: Option<bool>)
    ensures
        d.axis matches Some(h) ==> step(d, TouchPhase::Ended, moved).1 == Some(
            Gesture::Pan(d.target, h),
        ),
        step(d, TouchPhase::Cancelled, moved) == (None::<Drag<T>>, None::<Gesture<T>>),
        d.axis is None && moved is None ==> step(d, TouchPhase::Ended, moved).1 == Some(
            Gesture::<T>::Tap(d.target),
        ),
        step(d, TouchPhase::Ended, moved).0 is None,
{
}

/// A finger that leaves the slop circle, even only as it lifts (a quick
/// flick), is a pan along the way it went and never a tap: a tap comes only
/// from a release where neither the drag nor the release chose an axis, and
/// it is on what the touch began on.
pub proof fn a_flick_is_a_pan_never_a_tap<T>(
    d: Drag<T>,
    phase: TouchPhase,
    moved: Option<bool>,
    h: bool,
)
    ensures
        d.axis is None ==> step(d, TouchPhase::Ended, Some(h)).1 == Some(Gesture::Pan(d.target, h)),
        d.axis is None ==> step(d, TouchPhase::Moved, Some(h)) == (
            Some(Drag { axis: Some(h), ..d }),
            Some(Gesture::Pan(d.target, h)),
        ),
        step(d, phase, moved).1 matches Some(Gesture::Tap(t)) ==> {
            &&& phase == TouchPhase::Ended
            &&& d.axis is None
            &&& moved is None
            &&& t == d.target
        },
        step(d, phase, moved).1 matches Some(Gesture::Pan(t, a)) ==> t == d.target && (d.axis
            == Some(a) || (d.axis is None && moved == Some(a))),
        d.axis is None && moved is None && phase != TouchPhase::Ended ==> step(d, phase, moved).1 is None,
{
}

/// Once an axis is chosen it stays: later moves pan along it whatever the
/// finger does.
pub proof fn the_axis_is_kept<T>(d: Drag<T>, moved: Option<bool>, h: bool)
    requires
        d.axis == Some(h),
    ensures
        step(d, TouchPhase::Moved, moved) == (
            Some(d),
            Some(Gesture::Pan(d.target, h)),
        ),
{
}

} // verus!
