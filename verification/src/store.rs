//! The persisted side of the window system: the last known geometry of
//! each label and the descriptors of the windows that are tracked for
//! restore. Reading and writing the snapshot file is the caller's part;
//! each change reports whether there is something new to write.

use vstd::prelude::*;
use crate::descriptor::{
    DescriptorView, WindowDescriptor, WindowGeometry, descriptor_equal, float_bits_eq, geometry_equal, geometry_equals,
    views_of,
};
use crate::table::{Keyed, KeyedList, lemma_map_of_entry, lemma_map_of_index, map_of, sorted_by_key};
use crate::text::label_lt;

verus! {

/// The geometry last recorded for a label.
#[derive(Clone, Debug, PartialEq)]
pub struct GeometryEntry {
    pub label: String,
    pub geometry: WindowGeometry,
}

impl Keyed for GeometryEntry {
    open spec fn key_of(&self) -> Seq<char> {
        self.label@
    }

    fn key(&self) -> (r: &str) {
        self.label.as_str()
    }
}

/// `s` lists the entries of `m`, one per key, in label order.
pub open spec fn lists_in_label_order(s: Seq<DescriptorView>, m: Map<Seq<char>, DescriptorView>) -> bool {
    &&& forall|i: int, j: int| 0 <= i < j < s.len() ==> label_lt(#[trigger] s[i].label, #[trigger] s[j].label)
    &&& forall|i: int| 0 <= i < s.len() ==> m.contains_key(#[trigger] s[i].label) && m[s[i].label] == s[i]
    &&& forall|k: Seq<char>| #[trigger] m.contains_key(k) ==> exists|i: int| 0 <= i < s.len() && #[trigger] s[i].label == k
}

/// The map from label to descriptor view of a sorted descriptor list.
pub open spec fn descriptor_map(s: Seq<WindowDescriptor>) -> Map<Seq<char>, DescriptorView> {
    map_of(s).map_values(|d: WindowDescriptor| d@)
}

/// Copies of the descriptors of a sorted list, in order.
pub fn copy_descriptors(s: &[WindowDescriptor]) -> (r: Vec<WindowDescriptor>)
    requires
        sorted_by_key(s@),
    ensures
        views_of(r@) == views_of(s@),
        lists_in_label_order(views_of(r@), descriptor_map(s@)),
{
    let mut r: Vec<WindowDescriptor> = Vec::new();
    let mut i: usize = 0;
    while i < s.len()
        invariant
            i <= s@.len(),
            views_of(r@) == views_of(s@.take(i as int)),
        decreases s@.len() - i,
    {
        let ghost r0 = r@;
        let d = s[i].duplicate();
        r.push(d);
        proof {
            assert(s@.take(i + 1) =~= s@.take(i as int).push(s@[i as int]));
            assert(views_of(r@) =~= views_of(r0).push(d@));
            assert(views_of(s@.take(i + 1)) =~= views_of(s@.take(i as int)).push(s@[i as int]@));
        }
        i = i + 1;
    }
    proof {
        assert(s@.take(s@.len() as int) =~= s@);
        lemma_sorted_listing(s@);
    }
    r
}

/// A sorted descriptor list lists its own map.
pub proof fn lemma_sorted_listing(s: Seq<WindowDescriptor>)
    requires
        sorted_by_key(s),
    ensures
        lists_in_label_order(views_of(s), descriptor_map(s)),
{
    let v = views_of(s);
    let m = descriptor_map(s);
    assert forall|i: int, j: int| 0 <= i < j < v.len() implies label_lt(#[trigger] v[i].label, #[trigger] v[j].label) by {
        assert(s[i].key_of() == v[i].label);
        assert(s[j].key_of() == v[j].label);
    }
    assert forall|i: int| 0 <= i < v.len() implies m.contains_key(#[trigger] v[i].label) && m[v[i].label] == v[i] by {
        lemma_map_of_index(s, i);
    }
    assert forall|k: Seq<char>| #[trigger] m.contains_key(k) implies exists|i: int| 0 <= i < v.len() && #[trigger] v[i].label == k by {
        let i = lemma_map_of_entry(s, k);
        assert(v[i].label == k);
    }
}

/// What `restore` reads back after `remember(label, geometry)` is that
/// geometry, or a recorded one equal to it as doubles; after `forget` or a
/// purge it is nothing.
pub proof fn lemma_geometry_round_trip(
    before: WindowStateStore,
    written: WindowStateStore,
    dropped: WindowStateStore,
    label: Seq<char>,
    geometry: WindowGeometry,
)
    requires
        written.geometry_map() == if before.geometry_map().contains_key(label) && geometry_equal(
            before.geometry_map()[label],
            geometry,
        ) {
            before.geometry_map()
        } else {
            before.geometry_map().insert(label, geometry)
        },
        dropped.geometry_map() == written.geometry_map().remove(label),
    ensures
        written.geometry_map().contains_key(label),
        written.geometry_map()[label] == geometry || geometry_equal(written.geometry_map()[label], geometry),
        !dropped.geometry_map().contains_key(label),
{
}

/// Whether `geometry` differs, in at least one of its four coordinates
/// compared as doubles, from the geometry `map` records for `label`, or
/// `map` records none.
pub open spec fn differs_as_doubles(map: Map<Seq<char>, WindowGeometry>, label: Seq<char>, geometry: WindowGeometry) -> bool {
    ||| !map.contains_key(label)
    ||| !float_bits_eq(map[label].x, geometry.x)
    ||| !float_bits_eq(map[label].y, geometry.y)
    ||| !float_bits_eq(map[label].width, geometry.width)
    ||| !float_bits_eq(map[label].height, geometry.height)
}

/// Remembering a geometry that moves or resizes a window, in any single
/// coordinate, records it and reports a change; only a geometry that
/// agrees with the recorded one in all four coordinates, as doubles, is
/// ignored. `changed` and `after` are what `remember(label, geometry)`
/// reports and leaves on `before`.
pub proof fn lemma_remember_keeps_every_coordinate(
    before: WindowStateStore,
    label: Seq<char>,
    geometry: WindowGeometry,
    changed: bool,
)
    requires
        changed == !(before.geometry_map().contains_key(label) && geometry_equal(before.geometry_map()[label], geometry)),
    ensures
        differs_as_doubles(before.geometry_map(), label, geometry) ==> changed
            && before.geometry_map().insert(label, geometry)[label] == geometry,
        !differs_as_doubles(before.geometry_map(), label, geometry) ==> !changed,
{
}

/// `map` tracks a descriptor for the label of `d` that agrees with `d` in
/// label, url, parent and title, and whose geometry is `d`'s or one equal
/// to it coordinate by coordinate as doubles.
pub open spec fn records_descriptor(map: Map<Seq<char>, DescriptorView>, d: DescriptorView) -> bool {
    &&& map.contains_key(d.label)
    &&& map[d.label].label == d.label
    &&& map[d.label].url == d.url
    &&& map[d.label].parent == d.parent
    &&& map[d.label].title == d.title
    &&& (map[d.label].geometry == d.geometry || (map[d.label].geometry matches Some(g) && d.geometry matches Some(h)
        && float_bits_eq(g.x, h.x) && float_bits_eq(g.y, h.y) && float_bits_eq(g.width, h.width)
        && float_bits_eq(g.height, h.height)))
}

/// After `remember_window(d)` the store tracks `d`'s label with `d`'s url,
/// parent and title: a descriptor that differs from the tracked one in any
/// of them replaces it. `changed` and `after` are what the call reports and
/// leaves on `before`.
pub proof fn lemma_remember_window_records_descriptor(
    before: Map<Seq<char>, DescriptorView>,
    d: DescriptorView,
    changed: bool,
    after: Map<Seq<char>, DescriptorView>,
)
    requires
        changed == !(before.contains_key(d.label) && descriptor_equal(before[d.label], d)),
        after == if changed {
            before.insert(d.label, d)
        } else {
            before
        },
    ensures
        records_descriptor(after, d),
{
}

/// How long the snapshot writer waits for quiet before writing, so that a
/// burst of changes becomes one write.
pub const GEOMETRY_FLUSH_DEBOUNCE_MS: u64 = 80;

/// Where the snapshot writer stands: waiting for a change, or waiting for
/// the changes to settle.
#[derive(Clone, Copy, Debug, PartialEq, Eq, Structural)]
pub enum FlusherPhase {
    Idle,
    Debouncing,
}

/// What the snapshot writer observed.
#[derive(Clone, Copy, Debug, PartialEq, Eq, Structural)]
pub enum FlusherEvent {
    /// A change was signalled.
    Signal,
    /// No change came for the debounce period.
    QuietPeriodElapsed,
    /// No more changes can be signalled.
    ChannelClosed,
}

/// What the snapshot writer does next.
#[derive(Clone, Copy, Debug, PartialEq, Eq, Structural)]
pub enum FlusherAction {
    WaitForSignal,
    WaitQuietPeriod,
    FlushThenWaitForSignal,
    FlushThenStop,
    Stop,
}

/// The snapshot writer's transition, as plain values.
pub open spec fn flusher_next(phase: FlusherPhase, event: FlusherEvent, store_alive: bool) -> (FlusherPhase, FlusherAction) {
    match event {
        FlusherEvent::Signal => (FlusherPhase::Debouncing, FlusherAction::WaitQuietPeriod),
        FlusherEvent::QuietPeriodElapsed => (FlusherPhase::Idle, if phase == FlusherPhase::Debouncing && store_alive {
            FlusherAction::FlushThenWaitForSignal
        } else {
            FlusherAction::WaitForSignal
        }),
        FlusherEvent::ChannelClosed => (FlusherPhase::Idle, if phase == FlusherPhase::Debouncing && store_alive {
            FlusherAction::FlushThenStop
        } else {
            FlusherAction::Stop
        }),
    }
}

/// The actions the snapshot writer takes on `events`, from `phase`.
pub open spec fn flusher_actions(phase: FlusherPhase, events: Seq<FlusherEvent>, store_alive: bool) -> Seq<FlusherAction>
    decreases events.len(),
{
    if events.len() == 0 {
        Seq::empty()
    } else {
        let (next, action) = flusher_next(phase, events[0], store_alive);
        seq![action] + flusher_actions(next, events.drop_first(), store_alive)
    }
}

/// Whether an action writes the snapshot.
pub open spec fn flushes(action: FlusherAction) -> bool {
    action == FlusherAction::FlushThenWaitForSignal || action == FlusherAction::FlushThenStop
}

/// Writes coalesce: any burst of change signals followed by a quiet period
/// gives exactly one write, at the end.
pub proof fn lemma_signal_burst_flushes_once(phase: FlusherPhase, signals: nat)
    requires
        signals > 0,
    ensures
        ({
            let events = Seq::new(signals, |i: int| FlusherEvent::Signal).push(FlusherEvent::QuietPeriodElapsed);
            let actions = flusher_actions(phase, events, true);
            &&& actions.len() == signals + 1
            &&& actions.last() == FlusherAction::FlushThenWaitForSignal
            &&& forall|i: int| 0 <= i < signals ==> !flushes(#[trigger] actions[i])
        }),
    decreases signals,
{
    let events = Seq::new(signals, |i: int| FlusherEvent::Signal).push(FlusherEvent::QuietPeriodElapsed);
    let rest = events.drop_first();
    let actions = flusher_actions(phase, events, true);
    assert(events[0] == FlusherEvent::Signal);
    let tail = flusher_actions(FlusherPhase::Debouncing, rest, true);
    assert(actions == seq![FlusherAction::WaitQuietPeriod] + tail);
    if signals == 1 {
        assert(rest =~= seq![FlusherEvent::QuietPeriodElapsed]);
        assert(rest[0] == FlusherEvent::QuietPeriodElapsed);
        assert(flusher_actions(FlusherPhase::Idle, rest.drop_first(), true) =~= Seq::<FlusherAction>::empty());
        assert(tail =~= seq![FlusherAction::FlushThenWaitForSignal]);
        assert(actions =~= seq![FlusherAction::WaitQuietPeriod, FlusherAction::FlushThenWaitForSignal]);
    } else {
        lemma_signal_burst_flushes_once(FlusherPhase::Debouncing, (signals - 1) as nat);
        assert(rest =~= Seq::new((signals - 1) as nat, |i: int| FlusherEvent::Signal).push(FlusherEvent::QuietPeriodElapsed));
        assert(tail.len() == signals);
        assert(actions.last() == tail.last());
        assert forall|i: int| 0 <= i < signals implies !flushes(#[trigger] actions[i]) by {
            if i > 0 {
                assert(actions[i] == tail[i - 1]);
            }
        }
    }
}

/// One step of the snapshot writer. A signal (re)starts the quiet period;
/// a quiet period that passes writes the snapshot, if the store still
/// exists, and goes back to waiting; a closed channel writes pending
/// changes, if any and if the store still exists, and stops.
pub fn geometry_flusher_step(phase: FlusherPhase, event: FlusherEvent, store_alive: bool) -> (r: (
    FlusherPhase,
    FlusherAction,
))
    ensures
        r == flusher_next(phase, event, store_alive),
        event == FlusherEvent::Signal ==> r == (FlusherPhase::Debouncing, FlusherAction::WaitQuietPeriod),
        event == FlusherEvent::QuietPeriodElapsed ==> r == (FlusherPhase::Idle, if phase == FlusherPhase::Debouncing
            && store_alive {
            FlusherAction::FlushThenWaitForSignal
        } else {
            FlusherAction::WaitForSignal
        }),
        event == FlusherEvent::ChannelClosed ==> r == (FlusherPhase::Idle, if phase == FlusherPhase::Debouncing
            && store_alive {
            FlusherAction::FlushThenStop
        } else {
            FlusherAction::Stop
        }),
{
    match event {
        FlusherEvent::Signal => (FlusherPhase::Debouncing, FlusherAction::WaitQuietPeriod),
        FlusherEvent::QuietPeriodElapsed => {
            let debouncing = match phase {
                FlusherPhase::Debouncing => true,
                FlusherPhase::Idle => false,
            };
            if debouncing && store_alive {
                (FlusherPhase::Idle, FlusherAction::FlushThenWaitForSignal)
            } else {
                (FlusherPhase::Idle, FlusherAction::WaitForSignal)
            }
        },
        FlusherEvent::ChannelClosed => {
            let debouncing = match phase {
                FlusherPhase::Debouncing => true,
                FlusherPhase::Idle => false,
            };
            if debouncing && store_alive {
                (FlusherPhase::Idle, FlusherAction::FlushThenStop)
            } else {
                (FlusherPhase::Idle, FlusherAction::Stop)
            }
        },
    }
}

/// Last known geometry per label, and the windows tracked for restore.
pub struct WindowStateStore {
    geometries: KeyedList<GeometryEntry>,
    windows: KeyedList<WindowDescriptor>,
}

impl WindowStateStore {
    pub closed spec fn wf(&self) -> bool {
        self.geometries.wf() && self.windows.wf()
    }

    /// The geometry recorded for each label.
    pub closed spec fn geometry_map(&self) -> Map<Seq<char>, WindowGeometry> {
        self.geometries.map().map_values(|e: GeometryEntry| e.geometry)
    }

    /// The descriptor tracked for each label.
    pub closed spec fn tracked_map(&self) -> Map<Seq<char>, DescriptorView> {
        descriptor_map(self.windows.items())
    }

    /// An empty store.
    pub fn new() -> (r: Self)
        ensures
            r.wf(),
            r.geometry_map() == Map::<Seq<char>, WindowGeometry>::empty(),
            r.tracked_map() == Map::<Seq<char>, DescriptorView>::empty(),
    {
        let r = WindowStateStore { geometries: KeyedList::new(), windows: KeyedList::new() };
        assert(r.geometry_map() =~= Map::<Seq<char>, WindowGeometry>::empty());
        assert(r.tracked_map() =~= Map::<Seq<char>, DescriptorView>::empty());
        r
    }

    /// The geometry last recorded for `label`.
    pub fn restore(&self, label: &str) -> (r: Option<WindowGeometry>)
        requires
            self.wf(),
        ensures
            r == (if self.geometry_map().contains_key(label@) {
                Some(self.geometry_map()[label@])
            } else {
                None
            }),
    {
        match self.geometries.get(label) {
            Some(entry) => Some(entry.geometry),
            None => None,
        }
    }

    /// Records `geometry` for `label`. Returns whether anything changed,
    /// that is whether the snapshot needs writing; a value equal (as
    /// doubles) to the recorded one is ignored.
    pub fn remember(&mut self, label: &str, geometry: WindowGeometry) -> (changed: bool)
        requires
            old(self).wf(),
        ensures
            final(self).wf(),
            changed == !(old(self).geometry_map().contains_key(label@) && geometry_equal(
                old(self).geometry_map()[label@],
                geometry,
            )),
            final(self).geometry_map() == if changed {
                old(self).geometry_map().insert(label@, geometry)
            } else {
                old(self).geometry_map()
            },
            final(self).tracked_map() == old(self).tracked_map(),
            final(self).geometry_map().contains_key(label@),
            differs_as_doubles(old(self).geometry_map(), label@, geometry) ==> changed
                && final(self).geometry_map()[label@] == geometry,
            !differs_as_doubles(old(self).geometry_map(), label@, geometry) ==> !changed,
    {
        proof {
            lemma_remember_keeps_every_coordinate(*old(self), label@, geometry, !(old(self).geometry_map().contains_key(label@)
                && geometry_equal(old(self).geometry_map()[label@], geometry)));
        }
        let unchanged = match self.geometries.get(label) {
            Some(entry) => geometry_equals(&entry.geometry, &geometry),
            None => false,
        };
        if unchanged {
            return false;
        }
        let entry = GeometryEntry { label: String::from_str(label), geometry };
        self.geometries.upsert(entry);
        assert(self.geometry_map() =~= old(self).geometry_map().insert(label@, geometry));
        true
    }

    /// Drops the geometry recorded for `label`. Returns whether there was one.
    pub fn forget(&mut self, label: &str) -> (changed: bool)
        requires
            old(self).wf(),
        ensures
            final(self).wf(),
            final(self).geometry_map() == old(self).geometry_map().remove(label@),
            final(self).tracked_map() == old(self).tracked_map(),
            changed == old(self).geometry_map().contains_key(label@),
    {
        let removed = self.geometries.remove(label);
        assert(self.geometry_map() =~= old(self).geometry_map().remove(label@));
        removed.is_some()
    }

    /// Tracks `descriptor` for restore. Returns whether anything changed;
    /// a descriptor equal to the tracked one is ignored.
    pub fn remember_window(&mut self, descriptor: WindowDescriptor) -> (changed: bool)
        requires
            old(self).wf(),
        ensures
            final(self).wf(),
            changed == !(old(self).tracked_map().contains_key(descriptor@.label) && descriptor_equal(
                old(self).tracked_map()[descriptor@.label],
                descriptor@,
            )),
            final(self).tracked_map() == if changed {
                old(self).tracked_map().insert(descriptor@.label, descriptor@)
            } else {
                old(self).tracked_map()
            },
            final(self).geometry_map() == old(self).geometry_map(),
            records_descriptor(final(self).tracked_map(), descriptor@),
    {
        proof {
            let ch = !(old(self).tracked_map().contains_key(descriptor@.label) && descriptor_equal(
                old(self).tracked_map()[descriptor@.label],
                descriptor@,
            ));
            lemma_remember_window_records_descriptor(old(self).tracked_map(), descriptor@, ch, if ch {
                old(self).tracked_map().insert(descriptor@.label, descriptor@)
            } else {
                old(self).tracked_map()
            });
        }
        let unchanged = match self.windows.get(descriptor.label.as_str()) {
            Some(current) => current.same_as(&descriptor),
            None => false,
        };
        if unchanged {
            return false;
        }
        let ghost d = descriptor;
        self.windows.upsert(descriptor);
        assert(self.tracked_map() =~= old(self).tracked_map().insert(d@.label, d@));
        true
    }

    /// The tracked descriptors, in label order.
    pub fn restore_tracked_windows(&self) -> (r: Vec<WindowDescriptor>)
        requires
            self.wf(),
        ensures
            lists_in_label_order(views_of(r@), self.tracked_map()),
    {
        copy_descriptors(self.windows.as_slice())
    }

    /// Stops tracking `label` and drops its geometry. Returns whether
    /// either was present.
    pub fn purge_window(&mut self, label: &str) -> (changed: bool)
        requires
            old(self).wf(),
        ensures
            final(self).wf(),
            final(self).tracked_map() == old(self).tracked_map().remove(label@),
            final(self).geometry_map() == old(self).geometry_map().remove(label@),
            changed == (old(self).tracked_map().contains_key(label@) || old(self).geometry_map().contains_key(label@)),
    {
        let dropped_window = self.windows.remove(label);
        let geometry = self.geometries.remove(label);
        assert(self.tracked_map() =~= old(self).tracked_map().remove(label@));
        assert(self.geometry_map() =~= old(self).geometry_map().remove(label@));
        dropped_window.is_some() || geometry.is_some()
    }

    /// The recorded geometries, in label order.
    pub fn geometry_entries(&self) -> (r: Vec<GeometryEntry>)
        requires
            self.wf(),
        ensures
            sorted_by_key(r@),
            map_of(r@).map_values(|e: GeometryEntry| e.geometry) == self.geometry_map(),
    {
        let s = self.geometries.as_slice();
        let mut r: Vec<GeometryEntry> = Vec::new();
        let mut i: usize = 0;
        while i < s.len()
            invariant
                i <= s@.len(),
                r@ == s@.take(i as int),
            decreases s@.len() - i,
        {
            let e = GeometryEntry { label: s[i].label.clone(), geometry: s[i].geometry };
            r.push(e);
            proof {
                assert(s@.take(i + 1) =~= s@.take(i as int).push(s@[i as int]));
            }
            i = i + 1;
        }
        assert(s@.take(s@.len() as int) =~= s@);
        assert(r@ == self.geometries.items());
        r
    }
}

} // verus!
