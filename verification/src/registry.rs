//! The registry of live windows: descriptors by label, the parent to
//! children index, labels reserved for windows being created, and labels
//! whose teardown is under way. The persisted store travels with it.

use vstd::prelude::*;
use crate::descriptor::{
    DescriptorView, WindowDescriptor, WindowGeometry, descriptor_equal, float_bits_eq, geometry_equal,
    optional_geometry_equal, same_geometry, views_of,
};
use crate::table::{Keyed, KeyedList, lemma_map_of_entry, lemma_map_of_index, map_of, sorted_by_key};
use crate::store::{
    WindowStateStore, copy_descriptors, descriptor_map, differs_as_doubles, lists_in_label_order, records_descriptor,
};
use crate::text::{
    LabelOrder, compare_labels, is_blank, is_white_space, label_lt, lemma_label_lt_asymmetric, lemma_label_lt_irreflexive,
    lemma_white_space_is_blank, trim_text,
};
use crate::error::{WindowSystemErrorKind, error_text, window_system_error};

verus! {

/// The children recorded under one parent label.
struct ChildIndexEntry {
    parent: String,
    labels: KeyedList<String>,
}

impl Keyed for ChildIndexEntry {
    closed spec fn key_of(&self) -> Seq<char> {
        self.parent@
    }

    fn key(&self) -> (r: &str) {
        self.parent.as_str()
    }
}

impl ChildIndexEntry {
    closed spec fn labels_map(&self) -> Map<Seq<char>, String> {
        self.labels.map()
    }

    closed spec fn entry_wf(&self) -> bool {
        self.labels.wf() && self.labels.items().len() > 0
    }
}

/// The parent to child pairs that an index records.
spec fn index_pairs(index: Map<Seq<char>, ChildIndexEntry>) -> Set<(Seq<char>, Seq<char>)> {
    Set::new(
        |pc: (Seq<char>, Seq<char>)|
            index.contains_key(pc.0) && index[pc.0].labels_map().contains_key(pc.1),
    )
}

/// The parent to child pairs that the descriptors of `windows` state.
pub open spec fn parent_pairs(windows: Map<Seq<char>, DescriptorView>) -> Set<(Seq<char>, Seq<char>)> {
    Set::new(
        |pc: (Seq<char>, Seq<char>)|
            windows.contains_key(pc.1) && windows[pc.1].parent == Some(pc.0),
    )
}

/// The labels of the windows whose parent is `parent`.
pub open spec fn children_in(windows: Map<Seq<char>, DescriptorView>, parent: Seq<char>) -> Set<Seq<char>> {
    Set::new(|c: Seq<char>| windows.contains_key(c) && windows[c].parent == Some(parent))
}

/// A well-formed index: sorted, every entry non-empty and sorted.
spec fn index_wf(index: KeyedList<ChildIndexEntry>) -> bool {
    &&& index.wf()
    &&& forall|p: Seq<char>| #[trigger] index.map().contains_key(p) ==> index.map()[p].entry_wf()
}

/// Records `label` as a child of `parent`.
fn attach_child(index: &mut KeyedList<ChildIndexEntry>, label: &str, parent: Option<&str>)
    requires
        index_wf(*old(index)),
    ensures
        index_wf(*final(index)),
        index_pairs(final(index).map()) == match parent {
            Some(p) => index_pairs(old(index).map()).insert((p@, label@)),
            None => index_pairs(old(index).map()),
        },
{
    let parent = match parent {
        Some(p) => p,
        None => {
            return;
        },
    };
    let ghost m0 = index.map();
    let (key, mut labels) = match index.remove(parent) {
        Some(entry) => (entry.parent, entry.labels),
        None => (String::from_str(parent), KeyedList::new()),
    };
    let ghost l0 = labels.map();
    labels.upsert(String::from_str(label));
    proof {
        let s = labels.items();
        assert(labels.map().contains_key(label@));
        let i = lemma_map_of_entry(s, label@);
    }
    let entry = ChildIndexEntry { parent: key, labels };
    let ghost e = entry;
    index.upsert(entry);
    proof {
        assert(index.map() == m0.insert(parent@, e));
        assert forall|p: Seq<char>| #[trigger] index.map().contains_key(p) implies index.map()[p].entry_wf() by {
            if p != parent@ {
                assert(m0.contains_key(p));
            }
        }
        assert(index_pairs(index.map()) =~= index_pairs(m0).insert((parent@, label@))) by {
            assert forall|pc: (Seq<char>, Seq<char>)| #[trigger] index_pairs(index.map()).contains(pc) <==> index_pairs(m0).insert((parent@, label@)).contains(pc) by {
                if pc.0 == parent@ {
                    if m0.contains_key(parent@) {
                        assert(l0 == m0[parent@].labels_map());
                    } else {
                        assert(l0 =~= Map::<Seq<char>, String>::empty());
                    }
                }
            }
        }
    }
}

/// Removes `label` from the children of `parent`, dropping the entry of a
/// parent that is left without children.
fn detach_child(index: &mut KeyedList<ChildIndexEntry>, label: &str, parent: Option<&str>)
    requires
        index_wf(*old(index)),
    ensures
        index_wf(*final(index)),
        index_pairs(final(index).map()) == match parent {
            Some(p) => index_pairs(old(index).map()).remove((p@, label@)),
            None => index_pairs(old(index).map()),
        },
{
    let parent = match parent {
        Some(p) => p,
        None => {
            return;
        },
    };
    let ghost m0 = index.map();
    match index.remove(parent) {
        None => {
            proof {
                assert(index_pairs(index.map()) =~= index_pairs(m0).remove((parent@, label@)));
            }
        },
        Some(entry) => {
            let ChildIndexEntry { parent: key, mut labels } = entry;
            let ghost l0 = labels.map();
            labels.remove(label);
            if labels.len() > 0 {
                let entry = ChildIndexEntry { parent: key, labels };
                proof {
                    lemma_map_of_index(entry.labels.items(), 0);
                }
                let ghost e = entry;
                index.upsert(entry);
                proof {
                    assert(index.map() == m0.insert(parent@, e));
                    assert forall|p: Seq<char>| #[trigger] index.map().contains_key(p) implies index.map()[p].entry_wf() by {
                        if p != parent@ {
                            assert(m0.contains_key(p));
                        }
                    }
                    assert(index_pairs(index.map()) =~= index_pairs(m0).remove((parent@, label@)));
                }
            } else {
                proof {
                    assert(labels.map() =~= Map::<Seq<char>, String>::empty());
                    assert forall|p: Seq<char>| #[trigger] index.map().contains_key(p) implies index.map()[p].entry_wf() by {
                        assert(m0.contains_key(p));
                    }
                    assert forall|c: Seq<char>| l0.contains_key(c) implies c == label@ by {
                        assert(l0.remove(label@).contains_key(c) == (c != label@));
                        assert(!labels.map().contains_key(c));
                    }
                    assert(index_pairs(index.map()) =~= index_pairs(m0).remove((parent@, label@)));
                }
            }
        },
    }
}


/// A label set aside for a window that is being created.
pub struct WindowReservation {
    label: String,
    committed: bool,
}

impl WindowReservation {
    pub closed spec fn label_view(&self) -> Seq<char> {
        self.label@
    }

    pub closed spec fn is_committed(&self) -> bool {
        self.committed
    }

    /// The reserved label.
    pub fn label(&self) -> (r: &str)
        ensures
            r@ == self.label_view(),
    {
        self.label.as_str()
    }

    /// Marks the reservation as fulfilled: ending it then keeps the label
    /// where `insert_reserved` put it.
    pub fn commit(&mut self)
        ensures
            final(self).label_view() == old(self).label_view(),
            final(self).is_committed(),
    {
        self.committed = true;
    }
}

/// The mark that a window's teardown is under way.
pub struct ClosingGuard {
    label: String,
}

impl ClosingGuard {
    pub closed spec fn label_view(&self) -> Seq<char> {
        self.label@
    }

    /// The label being torn down.
    pub fn label(&self) -> (r: &str)
        ensures
            r@ == self.label_view(),
    {
        self.label.as_str()
    }
}

/// The registry of live windows.
pub struct WindowRegistry {
    windows: KeyedList<WindowDescriptor>,
    children: KeyedList<ChildIndexEntry>,
    reserved: KeyedList<String>,
    closing: KeyedList<String>,
    state_store: WindowStateStore,
}

impl WindowRegistry {
    /// The registered windows by label.
    pub closed spec fn windows(&self) -> Map<Seq<char>, DescriptorView> {
        descriptor_map(self.windows.items())
    }

    /// Labels reserved for windows being created.
    pub closed spec fn reserved(&self) -> Set<Seq<char>> {
        self.reserved.map().dom()
    }

    /// Labels whose teardown is under way.
    pub closed spec fn closing(&self) -> Set<Seq<char>> {
        self.closing.map().dom()
    }

    /// The persisted state.
    pub closed spec fn store(&self) -> WindowStateStore {
        self.state_store
    }

    /// The registry's invariant: every table well formed and the child
    /// index holding exactly the parent links of the registered windows.
    pub closed spec fn wf(&self) -> bool {
        &&& self.windows.wf()
        &&& index_wf(self.children)
        &&& self.reserved.wf()
        &&& self.closing.wf()
        &&& self.state_store.wf()
        &&& index_pairs(self.children.map()) == parent_pairs(self.windows())
    }

    /// A registry with no windows, over `state_store`.
    pub fn new(state_store: WindowStateStore) -> (r: Self)
        requires
            state_store.wf(),
        ensures
            r.wf(),
            r.windows() == Map::<Seq<char>, DescriptorView>::empty(),
            r.reserved() == Set::<Seq<char>>::empty(),
            r.closing() == Set::<Seq<char>>::empty(),
            r.store() == state_store,
    {
        let r = WindowRegistry {
            windows: KeyedList::new(),
            children: KeyedList::new(),
            reserved: KeyedList::new(),
            closing: KeyedList::new(),
            state_store,
        };
        assert(r.windows() =~= Map::<Seq<char>, DescriptorView>::empty());
        assert(r.reserved() =~= Set::<Seq<char>>::empty());
        assert(r.closing() =~= Set::<Seq<char>>::empty());
        assert(index_pairs(r.children.map()) =~= parent_pairs(r.windows()));
        r
    }

    /// Puts `descriptor` under its label and re-indexes its parent link.
    fn update_window(&mut self, descriptor: WindowDescriptor)
        requires
            old(self).wf(),
        ensures
            final(self).wf(),
            final(self).windows() == old(self).windows().insert(descriptor@.label, descriptor@),
            final(self).reserved() == old(self).reserved(),
            final(self).closing() == old(self).closing(),
            final(self).store() == old(self).store(),
    {
        let ghost d = descriptor@;
        let ghost w0 = self.windows();
        let label = descriptor.label.clone();
        let parent = match &descriptor.parent {
            Some(p) => Some(p.clone()),
            None => None,
        };
        let previous = self.windows.upsert(descriptor);
        proof {
            assert(self.windows() =~= w0.insert(d.label, d));
        }
        let ghost p1 = index_pairs(self.children.map());
        match previous {
            Some(prev) => {
                proof {
                    assert(w0.contains_key(d.label));
                    assert(prev@ == w0[d.label]);
                }
                match &prev.parent {
                    Some(pp) => detach_child(&mut self.children, prev.label.as_str(), Some(pp.as_str())),
                    None => detach_child(&mut self.children, prev.label.as_str(), None),
                }
            },
            None => {},
        }
        let ghost p2 = index_pairs(self.children.map());
        match &parent {
            Some(p) => attach_child(&mut self.children, label.as_str(), Some(p.as_str())),
            None => attach_child(&mut self.children, label.as_str(), None),
        }
        proof {
            let w1 = self.windows();
            assert(index_pairs(self.children.map()) =~= parent_pairs(w1)) by {
                assert forall|pc: (Seq<char>, Seq<char>)| #[trigger] index_pairs(self.children.map()).contains(pc) <==> parent_pairs(w1).contains(pc) by {
                    if pc.1 != d.label {
                        assert(parent_pairs(w0).contains(pc) == parent_pairs(w1).contains(pc));
                    } else {
                        if w0.contains_key(d.label) {
                            assert(parent_pairs(w0).contains(pc) == (w0[d.label].parent == Some(pc.0)));
                        } else {
                            assert(!parent_pairs(w0).contains(pc));
                        }
                    }
                }
            }
        }
    }

    /// Takes `label` out of the registry and its parent's children.
    fn remove_window(&mut self, label: &str) -> (r: Option<WindowDescriptor>)
        requires
            old(self).wf(),
        ensures
            final(self).wf(),
            final(self).windows() == old(self).windows().remove(label@),
            final(self).reserved() == old(self).reserved(),
            final(self).closing() == old(self).closing(),
            final(self).store() == old(self).store(),
            r is Some == old(self).windows().contains_key(label@),
            r matches Some(d) ==> d@ == old(self).windows()[label@],
    {
        let ghost w0 = self.windows();
        let removed = self.windows.remove(label);
        proof {
            assert(self.windows() =~= w0.remove(label@));
        }
        match removed {
            None => {
                proof {
                    assert(self.windows() =~= w0);
                }
                None
            },
            Some(prev) => {
                proof {
                    assert(prev@ == w0[label@]);
                }
                match &prev.parent {
                    Some(pp) => detach_child(&mut self.children, label, Some(pp.as_str())),
                    None => detach_child(&mut self.children, label, None),
                }
                proof {
                    let w1 = self.windows();
                    assert(index_pairs(self.children.map()) =~= parent_pairs(w1)) by {
                        assert forall|pc: (Seq<char>, Seq<char>)| #[trigger] index_pairs(self.children.map()).contains(pc) <==> parent_pairs(w1).contains(pc) by {
                            if pc.1 != label@ {
                                assert(parent_pairs(w0).contains(pc) == parent_pairs(w1).contains(pc));
                            } else {
                                assert(parent_pairs(w0).contains(pc) == (w0[label@].parent == Some(pc.0)));
                            }
                        }
                    }
                }
                Some(prev)
            },
        }
    }

    /// The error that reserving `label` under `parent` meets, if any, in
    /// the order the checks are made.
    pub open spec fn reserve_error(&self, label: Seq<char>, parent: Option<Seq<char>>) -> Option<Seq<char>> {
        if is_blank(label) {
            Some(error_text(WindowSystemErrorKind::InvalidLabel, "label is required"@))
        } else if self.windows().contains_key(label) || self.reserved().contains(label)
            || self.closing().contains(label) {
            Some(error_text(WindowSystemErrorKind::WindowAlreadyExists, "window already exists"@))
        } else if parent == Some(label) {
            Some(error_text(WindowSystemErrorKind::WindowCannotBeItsOwnParent, "window cannot be its own parent"@))
        } else if parent is Some && (!self.windows().contains_key(parent->0)
            || self.closing().contains(parent->0)) {
            Some(error_text(WindowSystemErrorKind::ParentWindowNotFound, "parent window not found"@))
        } else {
            None
        }
    }

    /// Sets `label` aside for a window about to be created under `parent`.
    pub fn reserve_window(&mut self, label: &str, parent: Option<&str>) -> (r: Result<WindowReservation, String>)
        requires
            old(self).wf(),
        ensures
            final(self).wf(),
            final(self).windows() == old(self).windows(),
            final(self).closing() == old(self).closing(),
            final(self).store() == old(self).store(),
            match r {
                Ok(reservation) => {
                    &&& old(self).reserve_error(label@, opt_view(parent)) is None
                    &&& final(self).reserved() == old(self).reserved().insert(label@)
                    &&& reservation.label_view() == label@
                    &&& !reservation.is_committed()
                },
                Err(e) => {
                    &&& old(self).reserve_error(label@, opt_view(parent)) == Some(e@)
                    &&& final(self).reserved() == old(self).reserved()
                },
            },
            (forall|i: int| 0 <= i < label@.len() ==> is_white_space(#[trigger] label@[i])) ==> (r matches Err(e)
                && e@ == error_text(WindowSystemErrorKind::InvalidLabel, "label is required"@)),
    {
        proof {
            if forall|i: int| 0 <= i < label@.len() ==> is_white_space(#[trigger] label@[i]) {
                lemma_blank_label_is_refused(*old(self), label@, opt_view(parent));
            }
        }
        let trimmed = trim_text(label);
        if trimmed.as_str().is_empty() {
            return Err(window_system_error(WindowSystemErrorKind::InvalidLabel, "label is required"));
        }
        if self.windows.contains(label) || self.reserved.contains(label) || self.closing.contains(label) {
            return Err(window_system_error(WindowSystemErrorKind::WindowAlreadyExists, "window already exists"));
        }
        if let Some(p) = parent {
            if compare_labels(p, label) == LabelOrder::Equal {
                return Err(
                    window_system_error(
                        WindowSystemErrorKind::WindowCannotBeItsOwnParent,
                        "window cannot be its own parent",
                    ),
                );
            }
            if !self.windows.contains(p) || self.closing.contains(p) {
                return Err(window_system_error(WindowSystemErrorKind::ParentWindowNotFound, "parent window not found"));
            }
        }
        self.reserved.upsert(String::from_str(label));
        assert(self.reserved() =~= old(self).reserved().insert(label@));
        Ok(WindowReservation { label: String::from_str(label), committed: false })
    }

    /// Ends a reservation: one that was never committed gives its label back.
    pub fn end_reservation(&mut self, reservation: WindowReservation)
        requires
            old(self).wf(),
        ensures
            final(self).wf(),
            final(self).windows() == old(self).windows(),
            final(self).closing() == old(self).closing(),
            final(self).store() == old(self).store(),
            final(self).reserved() == if reservation.is_committed() {
                old(self).reserved()
            } else {
                old(self).reserved().remove(reservation.label_view())
            },
    {
        if !reservation.committed {
            self.release_reservation(reservation.label.as_str());
        }
    }

    /// Gives a reserved label back.
    pub fn release_reservation(&mut self, label: &str)
        requires
            old(self).wf(),
        ensures
            final(self).wf(),
            final(self).windows() == old(self).windows(),
            final(self).closing() == old(self).closing(),
            final(self).store() == old(self).store(),
            final(self).reserved() == old(self).reserved().remove(label@),
    {
        self.reserved.remove(label);
        assert(self.reserved() =~= old(self).reserved().remove(label@));
    }

    /// Tracks `descriptor` for restore, without its geometry, which the
    /// store keeps per label. This is the one registry path that records a
    /// window for restore; registering a window does not. Returns whether
    /// the persisted state changed.
    pub fn track_window(&mut self, descriptor: &WindowDescriptor) -> (changed: bool)
        requires
            old(self).wf(),
        ensures
            final(self).wf(),
            final(self).windows() == old(self).windows(),
            final(self).reserved() == old(self).reserved(),
            final(self).closing() == old(self).closing(),
            final(self).store().geometry_map() == old(self).store().geometry_map(),
            changed == !(old(self).store().tracked_map().contains_key(descriptor@.label) && descriptor_equal(
                old(self).store().tracked_map()[descriptor@.label],
                tracked_form(descriptor@),
            )),
            final(self).store().tracked_map() == if changed {
                old(self).store().tracked_map().insert(descriptor@.label, tracked_form(descriptor@))
            } else {
                old(self).store().tracked_map()
            },
            records_descriptor(final(self).store().tracked_map(), tracked_form(descriptor@)),
    {
        let mut kept = descriptor.duplicate();
        kept.geometry = None;
        self.state_store.remember_window(kept)
    }

    /// Registers the descriptor of a window whose label was reserved,
    /// consuming the reservation.
    pub fn insert_reserved(&mut self, descriptor: WindowDescriptor) -> (r: Result<(), String>)
        requires
            old(self).wf(),
        ensures
            final(self).wf(),
            final(self).closing() == old(self).closing(),
            final(self).store() == old(self).store(),
            match r {
                Ok(()) => {
                    &&& old(self).reserved().contains(descriptor@.label)
                    &&& final(self).reserved() == old(self).reserved().remove(descriptor@.label)
                    &&& final(self).windows() == old(self).windows().insert(descriptor@.label, descriptor@)
                },
                Err(e) => {
                    &&& !old(self).reserved().contains(descriptor@.label)
                    &&& e@ == error_text(WindowSystemErrorKind::WindowReservationNotFound, "window reservation not found"@)
                    &&& final(self).reserved() == old(self).reserved()
                    &&& final(self).windows() == old(self).windows()
                },
            },
    {
        let removed = self.reserved.remove(descriptor.label.as_str());
        if removed.is_none() {
            assert(self.reserved() =~= old(self).reserved());
            return Err(
                window_system_error(WindowSystemErrorKind::WindowReservationNotFound, "window reservation not found"),
            );
        }
        assert(self.reserved() =~= old(self).reserved().remove(descriptor@.label));
        self.update_window(descriptor);
        Ok(())
    }

    /// Registers `descriptor`, replacing any window under its label and
    /// re-indexing its parent link. The persisted state is left alone.
    pub fn insert(&mut self, descriptor: WindowDescriptor)
        requires
            old(self).wf(),
        ensures
            final(self).wf(),
            final(self).windows() == old(self).windows().insert(descriptor@.label, descriptor@),
            final(self).reserved() == old(self).reserved(),
            final(self).closing() == old(self).closing(),
            final(self).store() == old(self).store(),
    {
        self.update_window(descriptor);
    }

    /// Registers a window found live in the application, as `insert` does.
    pub fn upsert_live_window(&mut self, descriptor: WindowDescriptor)
        requires
            old(self).wf(),
        ensures
            final(self).wf(),
            final(self).windows() == old(self).windows().insert(descriptor@.label, descriptor@),
            final(self).reserved() == old(self).reserved(),
            final(self).closing() == old(self).closing(),
            final(self).store() == old(self).store(),
    {
        self.update_window(descriptor);
    }

    /// Takes `label` out of the registry. Its persisted geometry and
    /// tracking are kept.
    pub fn remove(&mut self, label: &str) -> (r: Option<WindowDescriptor>)
        requires
            old(self).wf(),
        ensures
            final(self).wf(),
            final(self).windows() == old(self).windows().remove(label@),
            final(self).reserved() == old(self).reserved(),
            final(self).closing() == old(self).closing(),
            final(self).store() == old(self).store(),
            r is Some == old(self).windows().contains_key(label@),
            r matches Some(d) ==> d@ == old(self).windows()[label@],
    {
        self.remove_window(label)
    }

    /// The descriptor registered under `label`.
    pub fn get(&self, label: &str) -> (r: Option<WindowDescriptor>)
        requires
            self.wf(),
        ensures
            r is Some == self.windows().contains_key(label@),
            r matches Some(d) ==> d@ == self.windows()[label@],
    {
        match self.windows.get(label) {
            Some(d) => Some(d.duplicate()),
            None => None,
        }
    }

    /// Every registered window, in label order.
    pub fn list(&self) -> (r: Vec<WindowDescriptor>)
        requires
            self.wf(),
        ensures
            lists_in_label_order(views_of(r@), self.windows()),
    {
        copy_descriptors(self.windows.as_slice())
    }

    /// The labels of the windows whose parent is `parent`, in label order,
    /// read from the child index.
    pub fn child_labels_of(&self, parent: &str) -> (r: Vec<String>)
        requires
            self.wf(),
        ensures
            lists_labels_in_order(labels_of(r@), children_in(self.windows(), parent@)),
    {
        let ghost w = self.windows();
        match self.children.get(parent) {
            None => {
                proof {
                    assert forall|c: Seq<char>| !children_in(w, parent@).contains(c) by {
                        assert(!index_pairs(self.children.map()).contains((parent@, c)));
                        assert(!parent_pairs(w).contains((parent@, c)));
                    }
                    assert(labels_of(Seq::<String>::empty()) =~= Seq::<Seq<char>>::empty());
                }
                Vec::new()
            },
            Some(entry) => {
                let r = copy_labels(entry.labels.as_slice());
                proof {
                    let s = entry.labels.items();
                    lemma_label_listing(s);
                    assert(entry.labels_map() == map_of(s));
                    assert forall|c: Seq<char>| map_of(s).dom().contains(c) <==> #[trigger] children_in(w, parent@).contains(c) by {
                        assert(index_pairs(self.children.map()).contains((parent@, c)) == parent_pairs(w).contains((parent@, c)));
                    }
                    assert(map_of(s).dom() =~= children_in(w, parent@));
                }
                r
            },
        }
    }

    /// The descriptors of the windows whose parent is `parent`, in label
    /// order.
    pub fn children_of(&self, parent: &str) -> (r: Vec<WindowDescriptor>)
        requires
            self.wf(),
        ensures
            lists_in_label_order(views_of(r@), self.windows().restrict(children_in(self.windows(), parent@))),
    {
        let labels = self.child_labels_of(parent);
        let ghost w = self.windows();
        let ghost kids = children_in(w, parent@);
        let ghost ls = labels_of(labels@);
        let mut list: Vec<WindowDescriptor> = Vec::with_capacity(labels.len());
        let mut i: usize = 0;
        while i < labels.len()
            invariant
                self.wf(),
                w == self.windows(),
                ls == labels_of(labels@),
                lists_labels_in_order(ls, kids),
                kids == children_in(w, parent@),
                i <= labels@.len(),
                list@.len() == i,
                forall|j: int| 0 <= j < i ==> #[trigger] list@[j]@ == w[ls[j]],
            decreases labels@.len() - i,
        {
            assert(kids.contains(ls[i as int]));
            if let Some(descriptor) = self.get(labels[i].as_str()) {
                list.push(descriptor);
            }
            i = i + 1;
        }
        proof {
            let v = views_of(list@);
            let m = w.restrict(kids);
            assert forall|j: int| 0 <= j < v.len() implies #[trigger] v[j].label == ls[j] by {
                assert(v[j] == w[ls[j]]);
                assert(kids.contains(ls[j]));
                let k = lemma_descriptor_label(self, ls[j]);
            }
            assert forall|a: int, b: int| 0 <= a < b < v.len() implies label_lt(#[trigger] v[a].label, #[trigger] v[b].label) by {
                assert(v[a].label == ls[a]);
                assert(v[b].label == ls[b]);
            }
            assert forall|j: int| 0 <= j < v.len() implies m.contains_key(#[trigger] v[j].label) && m[v[j].label] == v[j] by {
                assert(v[j].label == ls[j]);
                assert(kids.contains(ls[j]));
            }
            assert forall|k: Seq<char>| #[trigger] m.contains_key(k) implies exists|j: int| 0 <= j < v.len() && #[trigger] v[j].label == k by {
                assert(kids.contains(k));
                let j = choose|j: int| 0 <= j < ls.len() && #[trigger] ls[j] == k;
                assert(v[j].label == ls[j]);
            }
        }
        list
    }

    /// The geometry last recorded for `label`.
    pub fn restore_geometry(&self, label: &str) -> (r: Option<WindowGeometry>)
        requires
            self.wf(),
        ensures
            r == (if self.store().geometry_map().contains_key(label@) {
                Some(self.store().geometry_map()[label@])
            } else {
                None
            }),
    {
        self.state_store.restore(label)
    }

    /// Records a new geometry for a registered window. An unregistered
    /// label, or a geometry equal (as doubles) to the one it has, changes
    /// nothing. Returns whether the persisted state changed.
    pub fn remember_geometry(&mut self, label: &str, geometry: WindowGeometry) -> (changed: bool)
        requires
            old(self).wf(),
        ensures
            final(self).wf(),
            final(self).reserved() == old(self).reserved(),
            final(self).closing() == old(self).closing(),
            final(self).store().tracked_map() == old(self).store().tracked_map(),
            if old(self).windows().contains_key(label@) && !optional_geometry_equal(
                old(self).windows()[label@].geometry,
                Some(geometry),
            ) {
                &&& final(self).windows() == old(self).windows().insert(
                    label@,
                    with_geometry(old(self).windows()[label@], geometry),
                )
                &&& changed == !(old(self).store().geometry_map().contains_key(label@) && geometry_equal(
                    old(self).store().geometry_map()[label@],
                    geometry,
                ))
                &&& final(self).store().geometry_map() == if changed {
                    old(self).store().geometry_map().insert(label@, geometry)
                } else {
                    old(self).store().geometry_map()
                }
            } else {
                &&& final(self).windows() == old(self).windows()
                &&& final(self).store() == old(self).store()
                &&& !changed
            },
            old(self).windows().contains_key(label@) && (old(self).windows()[label@].geometry matches Some(g) ==> (
            !float_bits_eq(g.x, geometry.x) || !float_bits_eq(g.y, geometry.y) || !float_bits_eq(g.width, geometry.width)
                || !float_bits_eq(g.height, geometry.height))) ==> {
                &&& final(self).windows()[label@].geometry == Some(geometry)
                &&& final(self).store().geometry_map().contains_key(label@)
                &&& final(self).store().geometry_map()[label@] == geometry || !differs_as_doubles(
                    final(self).store().geometry_map(),
                    label@,
                    geometry,
                )
            },
    {
        let current = match self.windows.get(label) {
            Some(d) => d.duplicate(),
            None => {
                return false;
            },
        };
        if same_geometry(&current.geometry, &Some(geometry)) {
            return false;
        }
        let mut updated = current;
        updated.geometry = Some(geometry);
        self.update_window(updated);
        self.state_store.remember(label, geometry)
    }

    /// Marks `label` as being torn down. Returns no guard when it already is.
    pub fn begin_closing(&mut self, label: &str) -> (r: Option<ClosingGuard>)
        requires
            old(self).wf(),
        ensures
            final(self).wf(),
            final(self).windows() == old(self).windows(),
            final(self).reserved() == old(self).reserved(),
            final(self).store() == old(self).store(),
            r is Some == !old(self).closing().contains(label@),
            final(self).closing() == old(self).closing().insert(label@),
            r matches Some(guard) ==> guard.label_view() == label@,
    {
        if self.closing.contains(label) {
            assert(self.closing() =~= old(self).closing().insert(label@));
            return None;
        }
        self.closing.upsert(String::from_str(label));
        assert(self.closing() =~= old(self).closing().insert(label@));
        Some(ClosingGuard { label: String::from_str(label) })
    }

    /// Ends the teardown mark that `guard` holds.
    pub fn finish_closing(&mut self, guard: ClosingGuard)
        requires
            old(self).wf(),
        ensures
            final(self).wf(),
            final(self).windows() == old(self).windows(),
            final(self).reserved() == old(self).reserved(),
            final(self).store() == old(self).store(),
            final(self).closing() == old(self).closing().remove(guard.label_view()),
    {
        self.closing.remove(guard.label.as_str());
        assert(self.closing() =~= old(self).closing().remove(guard.label_view()));
    }

    /// The tracked descriptors, in label order.
    pub fn restore_tracked_windows(&self) -> (r: Vec<WindowDescriptor>)
        requires
            self.wf(),
        ensures
            lists_in_label_order(views_of(r@), self.store().tracked_map()),
    {
        self.state_store.restore_tracked_windows()
    }

    /// Drops the persisted tracking and geometry of `label`. Returns
    /// whether the persisted state changed.
    pub fn purge_persisted_window(&mut self, label: &str) -> (changed: bool)
        requires
            old(self).wf(),
        ensures
            final(self).wf(),
            final(self).windows() == old(self).windows(),
            final(self).reserved() == old(self).reserved(),
            final(self).closing() == old(self).closing(),
            final(self).store().tracked_map() == old(self).store().tracked_map().remove(label@),
            final(self).store().geometry_map() == old(self).store().geometry_map().remove(label@),
            changed == (old(self).store().tracked_map().contains_key(label@)
                || old(self).store().geometry_map().contains_key(label@)),
    {
        self.state_store.purge_window(label)
    }

    /// The persisted state, for writing out.
    pub fn state_store(&self) -> (r: &WindowStateStore)
        ensures
            *r == self.store(),
    {
        &self.state_store
    }
}

/// Registers the windows found live in the application, in label order; of
/// two descriptors with one label the later counts.
pub fn sync_live_windows(registry: &mut WindowRegistry, descriptors: Vec<WindowDescriptor>)
    requires
        old(registry).wf(),
    ensures
        final(registry).wf(),
        final(registry).windows() == old(registry).windows().union_prefer_right(descriptor_map_last(descriptors@)),
        final(registry).store() == old(registry).store(),
        final(registry).reserved() == old(registry).reserved(),
        final(registry).closing() == old(registry).closing(),
{
    let mut ordered: KeyedList<WindowDescriptor> = KeyedList::new();
    let mut i: usize = 0;
    while i < descriptors.len()
        invariant
            i <= descriptors@.len(),
            ordered.wf(),
            descriptor_map(ordered.items()) == descriptor_map_last(descriptors@.take(i as int)),
        decreases descriptors@.len() - i,
    {
        let ghost before = ordered.map();
        ordered.upsert(descriptors[i].duplicate());
        proof {
            assert(descriptors@.take(i + 1).drop_last() =~= descriptors@.take(i as int));
            assert(descriptor_map(ordered.items()) =~= descriptor_map_last(descriptors@.take(i + 1)));
        }
        i = i + 1;
    }
    assert(descriptors@.take(descriptors@.len() as int) =~= descriptors@);
    let ghost target = descriptor_map_last(descriptors@);
    let ghost w0 = registry.windows();
    let items = ordered.as_slice();
    let mut j: usize = 0;
    while j < items.len()
        invariant
            j <= items@.len(),
            sorted_by_key(items@),
            descriptor_map(items@) == target,
            registry.wf(),
            registry.windows() == w0.union_prefer_right(descriptor_map(items@.take(j as int))),
            registry.store() == old(registry).store(),
            registry.reserved() == old(registry).reserved(),
            registry.closing() == old(registry).closing(),
        decreases items@.len() - j,
    {
        let d = items[j].duplicate();
        registry.upsert_live_window(d);
        proof {
            let before = items@.take(j as int);
            let after = items@.take(j + 1);
            assert(sorted_by_key(after)) by {
                assert forall|a: int, b: int| 0 <= a < b < after.len() implies crate::text::label_lt(
                    #[trigger] after[a].key_of(),
                    #[trigger] after[b].key_of(),
                ) by {
                    assert(after[a] == items@[a] && after[b] == items@[b]);
                }
            }
            assert(sorted_by_key(before)) by {
                assert forall|a: int, b: int| 0 <= a < b < before.len() implies crate::text::label_lt(
                    #[trigger] before[a].key_of(),
                    #[trigger] before[b].key_of(),
                ) by {
                    assert(before[a] == items@[a] && before[b] == items@[b]);
                }
            }
            lemma_map_of_index(after, j as int);
            assert(descriptor_map(after) =~= descriptor_map(before).insert(items@[j as int]@.label, items@[j as int]@)) by {
                assert forall|k: Seq<char>| #[trigger] descriptor_map(after).contains_key(k) <==> descriptor_map(before).insert(
                    items@[j as int]@.label,
                    items@[j as int]@,
                ).contains_key(k) by {
                    if descriptor_map(after).contains_key(k) {
                        let x = lemma_map_of_entry(after, k);
                        if x < j {
                            lemma_map_of_index(before, x);
                        }
                    }
                    if descriptor_map(before).contains_key(k) {
                        let x = lemma_map_of_entry(before, k);
                        lemma_map_of_index(after, x);
                    }
                }
                assert forall|k: Seq<char>| #[trigger] descriptor_map(after).contains_key(k) implies descriptor_map(after)[k]
                    == descriptor_map(before).insert(items@[j as int]@.label, items@[j as int]@)[k] by {
                    let x = lemma_map_of_entry(after, k);
                    if x < j {
                        lemma_map_of_index(before, x);
                    }
                }
            }
            assert(registry.windows() =~= w0.union_prefer_right(descriptor_map(after)));
        }
        j = j + 1;
    }
    assert(items@.take(items@.len() as int) =~= items@);
}

/// The map from label to the last descriptor with that label in `s`.
pub open spec fn descriptor_map_last(s: Seq<WindowDescriptor>) -> Map<Seq<char>, DescriptorView>
    decreases s.len(),
{
    if s.len() == 0 {
        Map::empty()
    } else {
        descriptor_map_last(s.drop_last()).insert(s.last()@.label, s.last()@)
    }
}

/// Once a label is reserved, reserving it again is refused as an existing
/// window, whatever the parent asked for, until the reservation ends.
pub proof fn lemma_reservation_excludes_label(
    before: WindowRegistry,
    after: WindowRegistry,
    label: Seq<char>,
    parent: Option<Seq<char>>,
    other_parent: Option<Seq<char>>,
)
    requires
        before.reserve_error(label, parent) is None,
        after.reserved() == before.reserved().insert(label),
    ensures
        after.reserve_error(label, other_parent) == Some(
            error_text(WindowSystemErrorKind::WindowAlreadyExists, "window already exists"@),
        ),
{
}

/// A closing mark is exclusive: while it is held, marking the label again
/// yields no guard; once it is finished, the label can be marked again.
pub proof fn lemma_closing_mark_exclusive(before: WindowRegistry, marked: WindowRegistry, finished: WindowRegistry, label: Seq<char>)
    requires
        !before.closing().contains(label),
        marked.closing() == before.closing().insert(label),
        finished.closing() == marked.closing().remove(label),
    ensures
        marked.closing().contains(label),
        !finished.closing().contains(label),
        finished.closing() == before.closing(),
{
    assert(finished.closing() =~= before.closing());
}

/// A label made only of white space, the empty label among them, is
/// refused as invalid before anything else is checked, whatever the
/// registry holds and whatever the parent.
pub proof fn lemma_blank_label_is_refused(registry: WindowRegistry, label: Seq<char>, parent: Option<Seq<char>>)
    requires
        forall|i: int| 0 <= i < label.len() ==> is_white_space(#[trigger] label[i]),
    ensures
        registry.reserve_error(label, parent) == Some(
            error_text(WindowSystemErrorKind::InvalidLabel, "label is required"@),
        ),
{
    lemma_white_space_is_blank(label);
}

/// Geometry recorded for a window survives the window's removal: after
/// `remember_geometry` changed it and `remove` took the window out, the
/// store still holds that geometry, or one equal to it as doubles.
pub proof fn lemma_geometry_survives_remove(
    registered: WindowRegistry,
    remembered: WindowRegistry,
    removed: WindowRegistry,
    label: Seq<char>,
    geometry: WindowGeometry,
)
    requires
        remembered.store().geometry_map() == if registered.store().geometry_map().contains_key(label)
            && geometry_equal(registered.store().geometry_map()[label], geometry) {
            registered.store().geometry_map()
        } else {
            registered.store().geometry_map().insert(label, geometry)
        },
        removed.windows() == remembered.windows().remove(label),
        removed.store() == remembered.store(),
    ensures
        !removed.windows().contains_key(label),
        removed.store().geometry_map().contains_key(label),
        removed.store().geometry_map()[label] == geometry || geometry_equal(removed.store().geometry_map()[label], geometry),
{
}

/// Re-registering a window under another parent moves it in the child
/// index: it is a child of the new parent and of no other.
pub proof fn lemma_reinsert_moves_child(before: WindowRegistry, after: WindowRegistry, d: DescriptorView, other: Seq<char>)
    requires
        after.windows() == before.windows().insert(d.label, d),
        d.parent != Some(other),
    ensures
        !children_in(after.windows(), other).contains(d.label),
        d.parent matches Some(p) ==> children_in(after.windows(), p).contains(d.label),
{
}

/// A registered window is registered under its own label.
proof fn lemma_descriptor_label(reg: &WindowRegistry, k: Seq<char>) -> (i: int)
    requires
        reg.wf(),
        reg.windows().contains_key(k),
    ensures
        reg.windows()[k].label == k,
{
    let s = reg.windows.items();
    let i = lemma_map_of_entry(s, k);
    i
}

/// An optional text as plain characters.
pub open spec fn opt_view(t: Option<&str>) -> Option<Seq<char>> {
    match t {
        Some(s) => Some(s@),
        None => None,
    }
}

/// The form in which a descriptor is tracked for restore: geometry is kept
/// per label by the store, not in the descriptor.
pub open spec fn tracked_form(d: DescriptorView) -> DescriptorView {
    DescriptorView { geometry: None, ..d }
}

/// `d` with `geometry` recorded.
pub open spec fn with_geometry(d: DescriptorView, geometry: WindowGeometry) -> DescriptorView {
    DescriptorView { geometry: Some(geometry), ..d }
}

/// The characters of each string.
pub open spec fn labels_of(s: Seq<String>) -> Seq<Seq<char>> {
    s.map_values(|t: String| t@)
}

/// `s` lists the members of `set`, each once, in label order.
pub open spec fn lists_labels_in_order(s: Seq<Seq<char>>, set: Set<Seq<char>>) -> bool {
    &&& forall|i: int, j: int| 0 <= i < j < s.len() ==> label_lt(#[trigger] s[i], #[trigger] s[j])
    &&& forall|i: int| 0 <= i < s.len() ==> set.contains(#[trigger] s[i])
    &&& forall|k: Seq<char>| #[trigger] set.contains(k) ==> exists|i: int| 0 <= i < s.len() && #[trigger] s[i] == k
}

/// A set of labels has one listing in label order, so what
/// `child_labels_of` returns is determined by the registry.
pub proof fn lemma_label_listing_unique(a: Seq<Seq<char>>, b: Seq<Seq<char>>, set: Set<Seq<char>>)
    requires
        lists_labels_in_order(a, set),
        lists_labels_in_order(b, set),
    ensures
        a == b,
    decreases a.len(),
{
    if a.len() == 0 {
        if b.len() > 0 {
            assert(set.contains(b[0]));
        }
        assert(a =~= b);
        return;
    }
    assert(set.contains(a[0]));
    assert(b.len() > 0);
    let i = choose|i: int| 0 <= i < a.len() && #[trigger] a[i] == b[0];
    let j = choose|j: int| 0 <= j < b.len() && #[trigger] b[j] == a[0];
    if i > 0 && j > 0 {
        assert(label_lt(a[0], a[i]));
        assert(label_lt(b[0], b[j]));
        lemma_label_lt_asymmetric(a[0], b[0]);
    }
    assert(a[0] == b[0]);
    let x = a[0];
    let rest = set.remove(x);
    let a1 = a.drop_first();
    let b1 = b.drop_first();
    assert forall|k: int| 0 <= k < a1.len() implies rest.contains(#[trigger] a1[k]) by {
        assert(label_lt(a[0], a[k + 1]));
        lemma_label_lt_irreflexive(x);
    }
    assert forall|k: int| 0 <= k < b1.len() implies rest.contains(#[trigger] b1[k]) by {
        assert(label_lt(b[0], b[k + 1]));
        lemma_label_lt_irreflexive(x);
    }
    assert forall|k: Seq<char>| #[trigger] rest.contains(k) implies exists|m: int| 0 <= m < a1.len() && #[trigger] a1[m] == k by {
        let m = choose|m: int| 0 <= m < a.len() && #[trigger] a[m] == k;
        assert(a1[m - 1] == k);
    }
    assert forall|k: Seq<char>| #[trigger] rest.contains(k) implies exists|m: int| 0 <= m < b1.len() && #[trigger] b1[m] == k by {
        let m = choose|m: int| 0 <= m < b.len() && #[trigger] b[m] == k;
        assert(b1[m - 1] == k);
    }
    assert forall|p: int, q: int| 0 <= p < q < a1.len() implies label_lt(#[trigger] a1[p], #[trigger] a1[q]) by {
        assert(a1[p] == a[p + 1] && a1[q] == a[q + 1]);
    }
    assert forall|p: int, q: int| 0 <= p < q < b1.len() implies label_lt(#[trigger] b1[p], #[trigger] b1[q]) by {
        assert(b1[p] == b[p + 1] && b1[q] == b[q + 1]);
    }
    lemma_label_listing_unique(a1, b1, rest);
    assert(a =~= seq![x] + a1);
    assert(b =~= seq![x] + b1);
}

/// A map of descriptors has one listing in label order, so what `list`,
/// `children_of` and `restore_tracked_windows` return is determined.
pub proof fn lemma_window_listing_unique(a: Seq<DescriptorView>, b: Seq<DescriptorView>, m: Map<Seq<char>, DescriptorView>)
    requires
        lists_in_label_order(a, m),
        lists_in_label_order(b, m),
    ensures
        a == b,
{
    let la = a.map_values(|d: DescriptorView| d.label);
    let lb = b.map_values(|d: DescriptorView| d.label);
    assert forall|k: Seq<char>| #[trigger] m.dom().contains(k) implies exists|i: int| 0 <= i < la.len() && #[trigger] la[i] == k by {
        let i = choose|i: int| 0 <= i < a.len() && #[trigger] a[i].label == k;
        assert(la[i] == k);
    }
    assert forall|k: Seq<char>| #[trigger] m.dom().contains(k) implies exists|i: int| 0 <= i < lb.len() && #[trigger] lb[i] == k by {
        let i = choose|i: int| 0 <= i < b.len() && #[trigger] b[i].label == k;
        assert(lb[i] == k);
    }
    assert forall|i: int, j: int| 0 <= i < j < la.len() implies label_lt(#[trigger] la[i], #[trigger] la[j]) by {
        assert(label_lt(a[i].label, a[j].label));
    }
    assert forall|i: int, j: int| 0 <= i < j < lb.len() implies label_lt(#[trigger] lb[i], #[trigger] lb[j]) by {
        assert(label_lt(b[i].label, b[j].label));
    }
    assert forall|i: int| 0 <= i < la.len() implies m.dom().contains(#[trigger] la[i]) by {
        assert(m.contains_key(a[i].label));
    }
    assert forall|i: int| 0 <= i < lb.len() implies m.dom().contains(#[trigger] lb[i]) by {
        assert(m.contains_key(b[i].label));
    }
    lemma_label_listing_unique(la, lb, m.dom());
    assert forall|i: int| 0 <= i < a.len() implies a[i] == b[i] by {
        assert(la[i] == lb[i]);
        assert(m[a[i].label] == a[i]);
        assert(m[b[i].label] == b[i]);
    }
    assert(a =~= b);
}

/// A sorted list of strings lists the keys of its map.
proof fn lemma_label_listing(s: Seq<String>)
    requires
        sorted_by_key(s),
    ensures
        lists_labels_in_order(labels_of(s), map_of(s).dom()),
{
    let v = labels_of(s);
    assert forall|i: int, j: int| 0 <= i < j < v.len() implies label_lt(#[trigger] v[i], #[trigger] v[j]) by {
        assert(s[i].key_of() == v[i]);
        assert(s[j].key_of() == v[j]);
    }
    assert forall|i: int| 0 <= i < v.len() implies map_of(s).dom().contains(#[trigger] v[i]) by {
        lemma_map_of_index(s, i);
    }
    assert forall|k: Seq<char>| #[trigger] map_of(s).dom().contains(k) implies exists|i: int| 0 <= i < v.len() && #[trigger] v[i] == k by {
        let i = lemma_map_of_entry(s, k);
        assert(v[i] == k);
    }
}

/// Copies of a list of strings.
fn copy_labels(s: &[String]) -> (r: Vec<String>)
    ensures
        r@ == s@,
{
    let mut r: Vec<String> = Vec::new();
    let mut i: usize = 0;
    while i < s.len()
        invariant
            i <= s@.len(),
            r@ == s@.take(i as int),
        decreases s@.len() - i,
    {
        r.push(s[i].clone());
        proof {
            assert(s@.take(i + 1) =~= s@.take(i as int).push(s@[i as int]));
        }
        i = i + 1;
    }
    assert(s@.take(s@.len() as int) =~= s@);
    r
}

} // verus!
