use std::collections::HashSet;
use vstd::prelude::*;

verus! {

broadcast use vstd::std_specs::hash::group_hash_axioms;

/// A window event, as far as the game loop cares about it.
///
/// Keys are identified by the numeric code of their virtual key.
#[derive(Clone, Copy, Debug, PartialEq, Eq)]
pub enum InputEvent {
    /// The window was closed.
    Closed,
    /// A key with a known virtual key code went down.
    KeyPressed(u32),
    /// A key with a known virtual key code went up.
    KeyReleased(u32),
    /// The mouse moved to the given position.
    MouseMoved(i32, i32),
    /// Anything else; it changes nothing.
    Other,
}

/// What the game loop remembers between frames: the keys held down and the
/// last known mouse position.
pub struct InputState {
    down_keys: HashSet<u32>,
    mousepos: (i32, i32),
}

/// The abstract state: the set of keys held down and the mouse position.
pub struct InputModel {
    pub down: Set<u32>,
    pub mousepos: (i32, i32),
}

impl View for InputState {
    type V = InputModel;

    closed spec fn view(&self) -> InputModel {
        InputModel { down: self.down_keys@, mousepos: self.mousepos }
    }
}

/// The state after one event.
pub open spec fn step(m: InputModel, ev: InputEvent) -> InputModel {
    match ev {
        InputEvent::KeyPressed(k) => InputModel { down: m.down.insert(k), mousepos: m.mousepos },
        InputEvent::KeyReleased(k) => InputModel { down: m.down.remove(k), mousepos: m.mousepos },
        InputEvent::MouseMoved(x, y) => InputModel { down: m.down, mousepos: (x, y) },
        _ => m,
    }
}

/// The state after a sequence of events, taken in order.
pub open spec fn run(m: InputModel, evs: Seq<InputEvent>) -> InputModel
    decreases evs.len(),
{
    if evs.len() == 0 {
        m
    } else {
        step(run(m, evs.drop_last()), evs.last())
    }
}

/// What a single event adds to the frame's list of key events:
/// `(true, key)` for a press, `(false, key)` for a release.
pub open spec fn key_record(ev: InputEvent) -> Seq<(bool, u32)> {
    match ev {
        InputEvent::KeyPressed(k) => seq![(true, k)],
        InputEvent::KeyReleased(k) => seq![(false, k)],
        _ => Seq::empty(),
    }
}

/// The key events of a sequence of events, in order.
pub open spec fn key_events(evs: Seq<InputEvent>) -> Seq<(bool, u32)>
    decreases evs.len(),
{
    if evs.len() == 0 {
        Seq::empty()
    } else {
        key_events(evs.drop_last()) + key_record(evs.last())
    }
}

/// Whether the sequence holds a `Closed` event.
pub open spec fn has_closed(evs: Seq<InputEvent>) -> bool {
    exists|i: int| 0 <= i < evs.len() && evs[i] == InputEvent::Closed
}

/// `i` is the position of the first `Closed` event of the sequence.
pub open spec fn first_closed_at(evs: Seq<InputEvent>, i: int) -> bool {
    &&& 0 <= i < evs.len()
    &&& evs[i] == InputEvent::Closed
    &&& forall|j: int| 0 <= j < i ==> evs[j] != InputEvent::Closed
}

/// The latest press (`Some(true)`) or release (`Some(false)`) of key `k` in
/// a log of key events; `None` where the log does not mention `k`.
pub open spec fn last_key_state(log: Seq<(bool, u32)>, k: u32) -> Option<bool>
    decreases log.len(),
{
    if log.len() == 0 {
        None
    } else if log.last().1 == k {
        Some(log.last().0)
    } else {
        last_key_state(log.drop_last(), k)
    }
}

/// The position of the latest `MouseMoved` event, or `start` where there is
/// none.
pub open spec fn last_mouse_pos(evs: Seq<InputEvent>, start: (i32, i32)) -> (i32, i32)
    decreases evs.len(),
{
    if evs.len() == 0 {
        start
    } else {
        match evs.last() {
            InputEvent::MouseMoved(x, y) => (x, y),
            _ => last_mouse_pos(evs.drop_last(), start),
        }
    }
}

/// A key is down after a sequence of events exactly when its latest event in
/// the sequence's key-event log is a press, or, where the log does not
/// mention it, when it was down before.
pub proof fn law_key_down_follows_last_event(m: InputModel, evs: Seq<InputEvent>, k: u32)
    ensures
        run(m, evs).down.contains(k) == match last_key_state(key_events(evs), k) {
            Some(pressed) => pressed,
            None => m.down.contains(k),
        },
    decreases evs.len(),
{
    if evs.len() > 0 {
        let init = evs.drop_last();
        law_key_down_follows_last_event(m, init, k);
        let log = key_events(evs);
        match evs.last() {
            InputEvent::KeyPressed(j) => {
                assert(log.drop_last() =~= key_events(init));
            },
            InputEvent::KeyReleased(j) => {
                assert(log.drop_last() =~= key_events(init));
            },
            _ => {
                assert(log =~= key_events(init));
            },
        }
    }
}

/// A press of key `k` at the end of any sequence of events puts `k` down,
/// leaves every other key and the mouse position as they were, and adds
/// exactly `(true, k)` to the key-event log.
pub proof fn law_press_puts_key_down(m: InputModel, evs: Seq<InputEvent>, k: u32)
    ensures
        run(m, evs.push(InputEvent::KeyPressed(k))).down.contains(k),
        forall|j: u32|
            j != k ==> run(m, evs.push(InputEvent::KeyPressed(k))).down.contains(j) == run(
                m,
                evs,
            ).down.contains(j),
        run(m, evs.push(InputEvent::KeyPressed(k))).mousepos == run(m, evs).mousepos,
        key_events(evs.push(InputEvent::KeyPressed(k))) == key_events(evs).push((true, k)),
{
    assert(evs.push(InputEvent::KeyPressed(k)).drop_last() =~= evs);
}

/// A release of key `k` at the end of any sequence of events lifts `k`,
/// leaves every other key and the mouse position as they were, and adds
/// exactly `(false, k)` to the key-event log.
pub proof fn law_release_lifts_key(m: InputModel, evs: Seq<InputEvent>, k: u32)
    ensures
        !run(m, evs.push(InputEvent::KeyReleased(k))).down.contains(k),
        forall|j: u32|
            j != k ==> run(m, evs.push(InputEvent::KeyReleased(k))).down.contains(j) == run(
                m,
                evs,
            ).down.contains(j),
        run(m, evs.push(InputEvent::KeyReleased(k))).mousepos == run(m, evs).mousepos,
        key_events(evs.push(InputEvent::KeyReleased(k))) == key_events(evs).push((false, k)),
{
    assert(evs.push(InputEvent::KeyReleased(k)).drop_last() =~= evs);
}

/// A frame made of a single press of `k`, from any state, logs exactly
/// `[(true, k)]` and ends with `k` down; one made of a single release of `k`
/// logs exactly `[(false, k)]` and ends with `k` up.
pub proof fn law_single_key_frames(m: InputModel, k: u32)
    ensures
        key_events(seq![InputEvent::KeyPressed(k)]) == seq![(true, k)],
        run(m, seq![InputEvent::KeyPressed(k)]).down.contains(k),
        key_events(seq![InputEvent::KeyReleased(k)]) == seq![(false, k)],
        !run(m, seq![InputEvent::KeyReleased(k)]).down.contains(k),
{
    law_press_puts_key_down(m, Seq::empty(), k);
    law_release_lifts_key(m, Seq::empty(), k);
    assert(Seq::<InputEvent>::empty().push(InputEvent::KeyPressed(k)) =~= seq![InputEvent::KeyPressed(k)]);
    assert(Seq::<InputEvent>::empty().push(InputEvent::KeyReleased(k)) =~= seq![InputEvent::KeyReleased(k)]);
    assert(Seq::<(bool, u32)>::empty().push((true, k)) =~= seq![(true, k)]);
    assert(Seq::<(bool, u32)>::empty().push((false, k)) =~= seq![(false, k)]);
}

/// The mouse position after a sequence of events is that of the latest
/// `MouseMoved` event, or the one before the sequence where there is none.
pub proof fn law_mouse_follows_last_move(m: InputModel, evs: Seq<InputEvent>)
    ensures
        run(m, evs).mousepos == last_mouse_pos(evs, m.mousepos),
    decreases evs.len(),
{
    if evs.len() > 0 {
        law_mouse_follows_last_move(m, evs.drop_last());
    }
}

/// Handling two batches of events one after the other gives the state and
/// the key-event log that handling them as one batch gives.
pub proof fn law_batches_compose(m: InputModel, a: Seq<InputEvent>, b: Seq<InputEvent>)
    ensures
        run(m, a + b) == run(run(m, a), b),
        key_events(a + b) == key_events(a) + key_events(b),
    decreases b.len(),
{
    if b.len() == 0 {
        assert(a + b =~= a);
        assert(key_events(a) + key_events(b) =~= key_events(a));
    } else {
        law_batches_compose(m, a, b.drop_last());
        assert((a + b).drop_last() =~= a + b.drop_last());
        assert((a + b).last() == b.last());
        assert(key_events(a + b) =~= key_events(a) + key_events(b));
    }
}

/// The events of a sequence that are not `Other`, in order.
pub open spec fn relevant_events(evs: Seq<InputEvent>) -> Seq<InputEvent>
    decreases evs.len(),
{
    if evs.len() == 0 {
        Seq::empty()
    } else if evs.last() == InputEvent::Other {
        relevant_events(evs.drop_last())
    } else {
        relevant_events(evs.drop_last()).push(evs.last())
    }
}

proof fn lemma_relevant_events(m: InputModel, evs: Seq<InputEvent>)
    ensures
        run(m, relevant_events(evs)) == run(m, evs),
        key_events(relevant_events(evs)) == key_events(evs),
        has_closed(relevant_events(evs)) == has_closed(evs),
        forall|i: int| #![trigger first_closed_at(evs, i)] first_closed_at(evs, i) ==> exists|j: int|
            first_closed_at(relevant_events(evs), j) && relevant_events(evs).take(j)
                == relevant_events(evs.take(i)),
    decreases evs.len(),
{
    if evs.len() > 0 {
        let init = evs.drop_last();
        let r0 = relevant_events(init);
        let r = relevant_events(evs);
        lemma_relevant_events(m, init);
        if evs.last() != InputEvent::Other {
            assert(r.drop_last() =~= r0);
            assert(r.last() == evs.last());
        }
        assert(has_closed(r) == has_closed(evs)) by {
            if has_closed(evs) {
                let i = choose|i: int| 0 <= i < evs.len() && evs[i] == InputEvent::Closed;
                if i < init.len() {
                    assert(init[i] == InputEvent::Closed);
                    assert(has_closed(r0));
                    let j = choose|j: int| 0 <= j < r0.len() && r0[j] == InputEvent::Closed;
                    assert(r[j] == InputEvent::Closed);
                } else {
                    assert(r[r.len() - 1] == InputEvent::Closed);
                }
            }
            if has_closed(r) {
                let j = choose|j: int| 0 <= j < r.len() && r[j] == InputEvent::Closed;
                if j < r0.len() {
                    assert(r0[j] == InputEvent::Closed);
                    assert(has_closed(init));
                    let i = choose|i: int| 0 <= i < init.len() && init[i] == InputEvent::Closed;
                    assert(evs[i] == InputEvent::Closed);
                } else {
                    assert(evs[evs.len() - 1] == InputEvent::Closed);
                }
            }
        }
        assert forall|i: int| #![trigger first_closed_at(evs, i)] first_closed_at(evs, i) implies exists|j: int|
            first_closed_at(r, j) && r.take(j) == relevant_events(evs.take(i)) by {
            if i < init.len() {
                assert(first_closed_at(init, i));
                assert(init.take(i) =~= evs.take(i));
                let j = choose|j: int| first_closed_at(r0, j) && r0.take(j) == relevant_events(init.take(i));
                assert(r.take(j) =~= r0.take(j));
                assert(first_closed_at(r, j));
            } else {
                assert(evs.take(i) =~= init);
                assert(!has_closed(init)) by {
                    if has_closed(init) {
                        let k = choose|k: int| 0 <= k < init.len() && init[k] == InputEvent::Closed;
                        assert(evs[k] == InputEvent::Closed);
                    }
                }
                let j = r0.len() as int;
                assert(r.take(j) =~= r0);
                assert forall|k: int| 0 <= k < j implies r[k] != InputEvent::Closed by {
                    assert(r[k] == r0[k]);
                }
                assert(first_closed_at(r, j));
            }
        }
    }
}

/// Events that are `Other` change nothing: two sequences that hold the same
/// other events in the same order leave the same state, give the same
/// key-event log, both hold a `Closed` or neither does, and, where they do,
/// leave the same state after the events before their first `Closed`.
pub proof fn law_other_events_change_nothing(m: InputModel, a: Seq<InputEvent>, b: Seq<InputEvent>)
    requires
        relevant_events(a) == relevant_events(b),
    ensures
        run(m, a) == run(m, b),
        key_events(a) == key_events(b),
        has_closed(a) == has_closed(b),
        forall|i: int, j: int|
            first_closed_at(a, i) && first_closed_at(b, j) ==> run(m, a.take(i)) == run(m, b.take(j)),
{
    lemma_relevant_events(m, a);
    lemma_relevant_events(m, b);
    assert forall|i: int, j: int|
        first_closed_at(a, i) && first_closed_at(b, j) implies run(m, a.take(i)) == run(m, b.take(j)) by {
        let r = relevant_events(a);
        let ja = choose|ja: int| first_closed_at(r, ja) && r.take(ja) == relevant_events(a.take(i));
        let jb = choose|jb: int| first_closed_at(r, jb) && r.take(jb) == relevant_events(b.take(j));
        assert(ja == jb) by {
            if ja < jb {
                assert(r[ja] != InputEvent::Closed);
            } else if jb < ja {
                assert(r[jb] != InputEvent::Closed);
            }
        }
        lemma_relevant_events(m, a.take(i));
        lemma_relevant_events(m, b.take(j));
    }
}

/// The events that remain queued after a frame: those after the first
/// `Closed`, which ended the frame; none where there is no `Closed`.
pub fn events_after_close(events: &Vec<InputEvent>) -> (res: Vec<InputEvent>)
    ensures
        !has_closed(events@) ==> res@.len() == 0,
        forall|i: int| first_closed_at(events@, i) ==> res@ == events@.skip(i + 1),
        has_closed(events@) ==> exists|i: int| first_closed_at(events@, i),
{
    let n = events.len();
    let mut i: usize = 0;
    while i < n
        invariant
            n == events.len(),
            0 <= i <= n,
            forall|j: int| 0 <= j < i ==> events@[j] != InputEvent::Closed,
        decreases n - i,
    {
        if let InputEvent::Closed = events[i] {
            assert(first_closed_at(events@, i as int));
            let mut rest: Vec<InputEvent> = Vec::new();
            let mut k: usize = i + 1;
            while k < n
                invariant
                    n == events.len(),
                    i < n,
                    i + 1 <= k <= n,
                    rest@ == events@.subrange(i + 1, k as int),
                decreases n - k,
            {
                rest.push(events[k]);
                assert(events@.subrange(i + 1, k + 1) =~= events@.subrange(i + 1, k as int).push(events@[k as int]));
                k = k + 1;
            }
            assert(events@.subrange(i + 1, n as int) =~= events@.skip(i + 1));
            assert forall|j: int| first_closed_at(events@, j) implies j == i by {
                if j < i {
                } else if j > i {
                    assert(events@[i as int] == InputEvent::Closed);
                }
            }
            return rest;
        }
        i = i + 1;
    }
    Vec::new()
}

/// What the game loop reports about one frame.
#[derive(Debug)]
pub struct Update<'a> {
    /// The current position of the mouse.
    pub mousepos: (i32, i32),
    /// All key events of the frame, in order: `(true, key)` for a press,
    /// `(false, key)` for a release.
    pub keyevents: Vec<(bool, u32)>,
    down_keys: &'a HashSet<u32>,
}

impl<'a> Update<'a> {
    /// The keys held down at the end of the frame.
    pub closed spec fn down(&self) -> Set<u32> {
        self.down_keys@
    }

    /// The value of the `keyevents` field.
    pub closed spec fn key_log(&self) -> Seq<(bool, u32)> {
        self.keyevents@
    }

    /// The value of the `mousepos` field.
    pub closed spec fn mouse(&self) -> (i32, i32) {
        self.mousepos
    }

    /// All key events of the frame, in order.
    pub fn keyevents(&self) -> (res: &Vec<(bool, u32)>)
        ensures
            res@ == self.key_log(),
    {
        &self.keyevents
    }

    /// The current position of the mouse.
    pub fn mousepos(&self) -> (res: (i32, i32))
        ensures
            res == self.mouse(),
    {
        self.mousepos
    }

    /// Checks whether a key is pressed down.
    pub fn is_down(&self, key: &u32) -> (res: bool)
        ensures
            res == self.down().contains(*key),
    {
        self.down_keys.contains(key)
    }
}

impl InputState {
    /// The state of a fresh game: no key down, the mouse at `(0, 0)`.
    pub fn new() -> (s: Self)
        ensures
            s@.down == Set::<u32>::empty(),
            s@.mousepos == (0i32, 0i32),
    {
        InputState { down_keys: HashSet::new(), mousepos: (0, 0) }
    }

    /// Whether a key is held down.
    pub fn is_down(&self, key: u32) -> (res: bool)
        ensures
            res == self@.down.contains(key),
    {
        self.down_keys.contains(&key)
    }

    /// The last known mouse position.
    pub fn mousepos(&self) -> (res: (i32, i32))
        ensures
            res == self@.mousepos,
    {
        self.mousepos
    }

    /// Applies one event to the state: a press puts the key down, a release
    /// lifts it, a mouse move sets the position; other events, `Closed`
    /// among them, change nothing here (`update` stops at `Closed`).
    pub fn handle_event(&mut self, ev: InputEvent)
        ensures
            final(self)@ == step(old(self)@, ev),
            ev matches InputEvent::KeyPressed(k) ==> {
                &&& final(self)@.down.contains(k)
                &&& forall|j: u32| j != k ==> final(self)@.down.contains(j) == old(self)@.down.contains(j)
                &&& final(self)@.mousepos == old(self)@.mousepos
            },
            ev matches InputEvent::KeyReleased(k) ==> {
                &&& !final(self)@.down.contains(k)
                &&& forall|j: u32| j != k ==> final(self)@.down.contains(j) == old(self)@.down.contains(j)
                &&& final(self)@.mousepos == old(self)@.mousepos
            },
            ev matches InputEvent::MouseMoved(x, y) ==> {
                &&& final(self)@.down == old(self)@.down
                &&& final(self)@.mousepos == (x, y)
            },
            (ev is Closed || ev is Other) ==> final(self)@ == old(self)@,
    {
        match ev {
            InputEvent::KeyPressed(k) => {
                self.down_keys.insert(k);
            },
            InputEvent::KeyReleased(k) => {
                self.down_keys.remove(&k);
            },
            InputEvent::MouseMoved(x, y) => {
                self.mousepos = (x, y);
            },
            _ => {},
        }
    }

    /// Handles the events of one frame in order.
    ///
    /// At the first `Closed` it stops and returns `None`; the events before
    /// it have been applied. Otherwise every event is applied and the frame's
    /// `Update` is returned.
    pub fn update(&mut self, events: &Vec<InputEvent>) -> (res: Option<Update<'_>>)
        ensures
            res is None <==> has_closed(events@),
            res is None ==> exists|i: int|
                first_closed_at(events@, i) && final(self)@ == run(old(self)@, events@.take(i)),
            res matches Some(u) ==> {
                &&& final(self)@ == run(old(self)@, events@)
                &&& u.key_log() == key_events(events@)
                &&& u.mouse() == final(self)@.mousepos
                &&& u.down() == final(self)@.down
            },
    {
        let mut keys: Vec<(bool, u32)> = Vec::new();
        let n = events.len();
        let mut i: usize = 0;
        while i < n
            invariant
                n == events.len(),
                0 <= i <= n,
                forall|j: int| 0 <= j < i ==> events@[j] != InputEvent::Closed,
                self@ == run(old(self)@, events@.take(i as int)),
                keys@ == key_events(events@.take(i as int)),
            decreases n - i,
        {
            let ev = events[i];
            assert(events@.take(i + 1).drop_last() == events@.take(i as int));
            if let InputEvent::Closed = ev {
                assert(first_closed_at(events@, i as int));
                return None;
            }
            self.handle_event(ev);
            match ev {
                InputEvent::KeyPressed(k) => keys.push((true, k)),
                InputEvent::KeyReleased(k) => keys.push((false, k)),
                _ => {},
            }
            i = i + 1;
        }
        assert(events@.take(n as int) == events@);
        Some(Update { mousepos: self.mousepos, keyevents: keys, down_keys: &self.down_keys })
    }
}

} // verus!
