//! Teardown of a window and its descendants, children first.

use vstd::prelude::*;
use crate::descriptor::DescriptorView;
use crate::registry::{ClosingGuard, WindowRegistry, children_in, labels_of, lists_labels_in_order};

verus! {

/// The text logged when a teardown fails.
pub open spec fn teardown_failure_text(stage: Seq<char>, label: Seq<char>, error: Seq<char>) -> Seq<char> {
    "window-system: teardown failed stage="@ + stage + " label="@ + label + " error="@ + error
}

pub fn format_teardown_failure(stage: &str, label: &str, error: &str) -> (r: String)
    ensures
        r@ == teardown_failure_text(stage@, label@, error@),
{
    let mut text = String::from_str("window-system: teardown failed stage=");
    text.append(stage);
    text.append(" label=");
    text.append(label);
    text.append(" error=");
    text.append(error);
    text
}


/// A step of a teardown as plain values: entering a label (and whether the
/// caller marked it closing already), or leaving it (and whether the
/// teardown holds its closing mark).
pub enum CloseFrameView {
    Enter(Seq<char>, bool),
    Exit(Seq<char>, bool),
}

pub open spec fn frame_label(f: CloseFrameView) -> Seq<char> {
    match f {
        CloseFrameView::Enter(l, _) => l,
        CloseFrameView::Exit(l, _) => l,
    }
}

enum CloseFrame {
    Enter { label: String, already_marked: bool },
    Exit { label: String, guard: Option<ClosingGuard> },
}

spec fn frame_view(f: CloseFrame) -> CloseFrameView {
    match f {
        CloseFrame::Enter { label, already_marked } => CloseFrameView::Enter(label@, already_marked),
        CloseFrame::Exit { label, guard } => CloseFrameView::Exit(label@, guard is Some),
    }
}

spec fn frame_wf(f: CloseFrame) -> bool {
    match f {
        CloseFrame::Enter { .. } => true,
        CloseFrame::Exit { label, guard } => guard matches Some(g) ==> g.label_view() == label@,
    }
}

/// The Enter frames for `labels`, in the same order.
pub open spec fn enter_frames(labels: Seq<Seq<char>>) -> Seq<CloseFrameView> {
    labels.map_values(|l: Seq<char>| CloseFrameView::Enter(l, false))
}

/// What the caller of a teardown does next.
#[derive(Debug, PartialEq)]
pub enum CloseStep {
    /// Nothing to do outside; ask for the next step.
    Continue,
    /// Destroy the native window of this label, then call `complete_exit`.
    Destroy(String),
    /// The teardown is over; call `finish`.
    Done,
}

/// The teardown of a window and, before it, of its descendants. The
/// caller drives it: `step` until `Done`, destroying each native window
/// that a `Destroy` names and reporting back with `complete_exit`.
pub struct WindowCloseTree {
    stack: Vec<CloseFrame>,
    pending: Option<(String, Option<ClosingGuard>)>,
    errors: Vec<String>,
}

impl WindowCloseTree {
    /// The frames still to process; the last one is processed first.
    pub closed spec fn frames(&self) -> Seq<CloseFrameView> {
        self.stack@.map_values(|f: CloseFrame| frame_view(f))
    }

    /// The label whose native window is being destroyed, and whether the
    /// teardown holds its closing mark.
    pub closed spec fn pending(&self) -> Option<(Seq<char>, bool)> {
        match self.pending {
            Some((l, g)) => Some((l@, g is Some)),
            None => None,
        }
    }

    /// The failures recorded so far.
    pub closed spec fn failures(&self) -> Seq<Seq<char>> {
        labels_of(self.errors@)
    }

    pub closed spec fn wf(&self) -> bool {
        &&& forall|i: int| 0 <= i < self.stack@.len() ==> frame_wf(#[trigger] self.stack@[i])
        &&& self.pending matches Some((l, g)) ==> (g matches Some(guard) ==> guard.label_view() == l@)
    }

    /// The order the teardown keeps: for every frame that leaves a label,
    /// each registered child of that label either has a frame above it, is
    /// the label being destroyed, or is marked closing; and every registered
    /// child of the label being destroyed is marked closing.
    pub open spec fn children_first(&self, registry: WindowRegistry) -> bool {
        &&& forall|i: int, c: Seq<char>|
            0 <= i < self.frames().len() && self.frames()[i] is Exit && #[trigger] children_in(
                registry.windows(),
                frame_label(self.frames()[i]),
            ).contains(c) ==> covered_above(self.frames(), i, c, self.pending(), registry.closing())
        &&& self.pending() matches Some((l, _)) ==> children_in(registry.windows(), l).subset_of(registry.closing())
    }

    /// A teardown of `label`. `already_marked` says that the caller holds
    /// the label's closing mark.
    pub fn new(label: &str, already_marked: bool) -> (r: Self)
        ensures
            r.wf(),
            r.frames() == seq![CloseFrameView::Enter(label@, already_marked)],
            r.pending() is None,
            r.failures() == Seq::<Seq<char>>::empty(),
            forall|registry: WindowRegistry| r.children_first(registry),
    {
        let mut stack: Vec<CloseFrame> = Vec::new();
        stack.push(CloseFrame::Enter { label: String::from_str(label), already_marked });
        let r = WindowCloseTree { stack, pending: None, errors: Vec::new() };
        assert(r.frames() =~= seq![CloseFrameView::Enter(label@, already_marked)]);
        assert(r.failures() =~= Seq::<Seq<char>>::empty());
        assert forall|registry: WindowRegistry| r.children_first(registry) by {
            assert forall|i: int, c: Seq<char>|
                0 <= i < r.frames().len() && r.frames()[i] is Exit && #[trigger] children_in(
                    registry.windows(),
                    frame_label(r.frames()[i]),
                ).contains(c) implies covered_above(r.frames(), i, c, r.pending(), registry.closing()) by {
                assert(r.frames()[0] is Enter);
            }
        }
        r
    }

    /// Processes the next frame. Entering a label marks it closing (unless
    /// the caller marked it, and skipping it when someone else has) and
    /// queues its children, in label order, above the frame that leaves it;
    /// leaving a label asks the caller to destroy its window.
    pub fn step(&mut self, registry: &mut WindowRegistry) -> (r: CloseStep)
        requires
            old(self).wf(),
            old(registry).wf(),
        ensures
            final(self).wf(),
            final(registry).wf(),
            final(registry).windows() == old(registry).windows(),
            final(registry).reserved() == old(registry).reserved(),
            final(registry).store() == old(registry).store(),
            final(self).failures() == old(self).failures(),
            old(self).children_first(*old(registry)) ==> final(self).children_first(*final(registry)),
            forall|root: Seq<char>, w0: Map<Seq<char>, DescriptorView>, c0: Set<Seq<char>>|
                #[trigger] old(self).teardown_progress(*old(registry), root, w0, c0) ==> final(self).teardown_progress(
                    *final(registry),
                    root,
                    w0,
                    c0,
                ),
            match old(self).pending() {
                Some((l, _)) => {
                    &&& r matches CloseStep::Destroy(d) && d@ == l
                    &&& final(self).frames() == old(self).frames()
                    &&& final(self).pending() == old(self).pending()
                    &&& final(registry).closing() == old(registry).closing()
                },
                None => if old(self).frames().len() == 0 {
                    &&& r == CloseStep::Done
                    &&& final(self).frames() == old(self).frames()
                    &&& final(self).pending() is None
                    &&& final(registry).closing() == old(registry).closing()
                } else {
                    let rest = old(self).frames().drop_last();
                    match old(self).frames().last() {
                        CloseFrameView::Enter(l, marked) => {
                            &&& r == CloseStep::Continue
                            &&& final(self).pending() is None
                            &&& if !marked && old(registry).closing().contains(l) {
                                &&& final(self).frames() == rest
                                &&& final(registry).closing() == old(registry).closing()
                            } else {
                                &&& final(registry).closing() == if marked {
                                    old(registry).closing()
                                } else {
                                    old(registry).closing().insert(l)
                                }
                                &&& exists|kids: Seq<Seq<char>>|
                                    lists_labels_in_order(kids, children_in(old(registry).windows(), l))
                                        && final(self).frames() == rest.push(CloseFrameView::Exit(l, !marked))
                                        + enter_frames(kids.reverse())
                            }
                        },
                        CloseFrameView::Exit(l, held) => {
                            &&& r matches CloseStep::Destroy(d) && d@ == l
                            &&& final(self).frames() == rest
                            &&& final(self).pending() == Some((l, held))
                            &&& final(registry).closing() == old(registry).closing()
                        },
                    }
                },
            },
    {
        if let Some((label, _)) = &self.pending {
            return CloseStep::Destroy(label.clone());
        }
        let ghost frames0 = self.frames();
        let ghost closing0 = registry.closing();
        let ghost windows0 = registry.windows();
        let frame = match self.stack.pop() {
            Some(f) => f,
            None => {
                return CloseStep::Done;
            },
        };
        proof {
            assert(self.frames() =~= frames0.drop_last());
            assert(frame_view(frame) == frames0.last());
            assert(frame_wf(old(self).stack@.last()));
        }
        match frame {
            CloseFrame::Enter { label, already_marked } => {
                let guard = if already_marked {
                    None
                } else {
                    match registry.begin_closing(label.as_str()) {
                        Some(g) => Some(g),
                        None => {
                            proof {
                                assert(registry.closing() =~= closing0);
                                self.lemma_skip_keeps_order(*old(self), *old(registry), *registry, label@);
                                assert forall|root: Seq<char>, w0: Map<Seq<char>, DescriptorView>, c0: Set<Seq<char>>|
                                    #[trigger] old(self).teardown_progress(*old(registry), root, w0, c0) implies self.teardown_progress(
                                    *registry,
                                    root,
                                    w0,
                                    c0,
                                ) by {
                                    lemma_progress_skip(*old(self), *old(registry), *self, *registry, root, w0, c0);
                                }
                            }
                            return CloseStep::Continue;
                        },
                    }
                };
                let children = registry.child_labels_of(label.as_str());
                let ghost kids = labels_of(children@);
                let ghost base = self.frames();
                self.stack.push(CloseFrame::Exit { label, guard });
                proof {
                    assert(self.frames() =~= base.push(CloseFrameView::Exit(frame_label(frames0.last()), !already_marked)));
                }
                let ghost pushed = self.frames();
                let mut k: usize = children.len();
                while k > 0
                    invariant
                        k <= children@.len(),
                        kids == labels_of(children@),
                        self.wf(),
                        self.pending is None,
                        self.errors@ == old(self).errors@,
                        self.frames() == pushed + enter_frames(kids.skip(k as int).reverse()),
                    decreases k,
                {
                    k = k - 1;
                    let ghost before = self.frames();
                    self.stack.push(CloseFrame::Enter { label: children[k].clone(), already_marked: false });
                    proof {
                        assert(kids.skip(k as int).reverse() =~= kids.skip(k + 1).reverse().push(kids[k as int]));
                        assert(self.frames() =~= before.push(CloseFrameView::Enter(kids[k as int], false)));
                        assert(enter_frames(kids.skip(k as int).reverse()) =~= enter_frames(kids.skip(k + 1).reverse()).push(
                            CloseFrameView::Enter(kids[k as int], false),
                        ));
                    }
                }
                proof {
                    assert(kids.skip(0) =~= kids);
                    self.lemma_enter_keeps_order(*old(self), *old(registry), *registry, kids);
                    assert forall|root: Seq<char>, w0: Map<Seq<char>, DescriptorView>, c0: Set<Seq<char>>|
                        #[trigger] old(self).teardown_progress(*old(registry), root, w0, c0) implies self.teardown_progress(
                        *registry,
                        root,
                        w0,
                        c0,
                    ) by {
                        if already_marked {
                            let n = frames0.len() - 1;
                            assert(match frames0[n] {
                                CloseFrameView::Enter(l, marked) => !marked && subtree(w0, root).contains(l),
                                CloseFrameView::Exit(l, held) => held && subtree(w0, root).contains(l),
                            });
                        } else {
                            lemma_progress_enter(*old(self), *old(registry), *self, *registry, kids, root, w0, c0);
                        }
                    }
                }
                CloseStep::Continue
            },
            CloseFrame::Exit { label, guard } => {
                let name = label.clone();
                self.pending = Some((label, guard));
                proof {
                    self.lemma_exit_keeps_order(*old(self), *old(registry));
                    assert forall|root: Seq<char>, w0: Map<Seq<char>, DescriptorView>, c0: Set<Seq<char>>|
                        #[trigger] old(self).teardown_progress(*old(registry), root, w0, c0) implies self.teardown_progress(
                        *registry,
                        root,
                        w0,
                        c0,
                    ) by {
                        lemma_progress_exit(*old(self), *old(registry), *self, *registry, root, w0, c0);
                    }
                }
                CloseStep::Destroy(name)
            },
        }
    }
}

impl WindowCloseTree {
    /// Takes the label whose native window the caller has just tried to
    /// destroy out of the registry, ends the teardown's closing mark on it,
    /// and records a failed destruction. Without a pending label it does
    /// nothing.
    pub fn complete_exit(&mut self, registry: &mut WindowRegistry, destroy_error: Option<String>)
        requires
            old(self).wf(),
            old(registry).wf(),
        ensures
            final(self).wf(),
            final(registry).wf(),
            final(registry).reserved() == old(registry).reserved(),
            final(registry).store() == old(registry).store(),
            final(self).frames() == old(self).frames(),
            final(self).pending() is None,
            old(self).children_first(*old(registry)) ==> final(self).children_first(*final(registry)),
            forall|root: Seq<char>, w0: Map<Seq<char>, DescriptorView>, c0: Set<Seq<char>>|
                #[trigger] old(self).teardown_progress(*old(registry), root, w0, c0) ==> final(self).teardown_progress(
                    *final(registry),
                    root,
                    w0,
                    c0,
                ),
            match old(self).pending() {
                None => {
                    &&& final(registry).windows() == old(registry).windows()
                    &&& final(registry).closing() == old(registry).closing()
                    &&& final(self).failures() == old(self).failures()
                },
                Some((l, held)) => {
                    &&& old(self).children_first(*old(registry)) ==> children_in(old(registry).windows(), l).subset_of(
                        old(registry).closing(),
                    )
                    &&& final(registry).windows() == old(registry).windows().remove(l)
                    &&& final(registry).closing() == if held {
                        old(registry).closing().remove(l)
                    } else {
                        old(registry).closing()
                    }
                    &&& final(self).failures() == match destroy_error {
                        Some(e) => old(self).failures().push(l + ": destroy failed: "@ + e@),
                        None => old(self).failures(),
                    }
                },
            },
    {
        let pending = self.pending.take();
        let (label, guard) = match pending {
            Some(p) => p,
            None => {
                return;
            },
        };
        let ghost closing0 = registry.closing();
        let ghost windows0 = registry.windows();
        registry.remove(label.as_str());
        if let Some(g) = guard {
            registry.finish_closing(g);
        }
        if let Some(e) = destroy_error {
            let mut text = label.clone();
            text.append(": destroy failed: ");
            text.append(e.as_str());
            let ghost e0 = self.errors@;
            self.errors.push(text);
            proof {
                assert(labels_of(self.errors@) =~= labels_of(e0).push(label@ + ": destroy failed: "@ + e@));
            }
        }
        proof {
            if old(self).children_first(*old(registry)) {
                let f = self.frames();
                assert forall|i: int, c: Seq<char>|
                    0 <= i < f.len() && f[i] is Exit && #[trigger] children_in(registry.windows(), frame_label(f[i])).contains(c)
                    implies covered_above(f, i, c, self.pending(), registry.closing()) by {
                    assert(children_in(windows0, frame_label(f[i])).contains(c));
                    assert(covered_above(f, i, c, old(self).pending(), closing0));
                    assert(c != label@);
                }
            }
            assert(old(self).children_first(*old(registry)) ==> self.children_first(*registry));
            assert forall|root: Seq<char>, w0: Map<Seq<char>, DescriptorView>, c0: Set<Seq<char>>|
                #[trigger] old(self).teardown_progress(*old(registry), root, w0, c0) implies self.teardown_progress(
                *registry,
                root,
                w0,
                c0,
            ) by {
                lemma_progress_complete(*old(self), *old(registry), *self, *registry, root, w0, c0);
            }
        }
    }

    /// Gives up on the pending label without touching the registry,
    /// recording `failure` against it, so that the teardown goes on with the
    /// other labels. Without a pending label it does nothing.
    pub fn abandon_exit(&mut self, failure: &str)
        requires
            old(self).wf(),
        ensures
            final(self).wf(),
            final(self).frames() == old(self).frames(),
            final(self).pending() is None,
            final(self).failures() == match old(self).pending() {
                Some((l, _)) => old(self).failures().push(l + ": "@ + failure@),
                None => old(self).failures(),
            },
    {
        let pending = self.pending.take();
        if let Some((label, _guard)) = pending {
            let mut text = label.clone();
            text.append(": ");
            text.append(failure);
            let ghost e0 = self.errors@;
            self.errors.push(text);
            proof {
                assert(labels_of(self.errors@) =~= labels_of(e0).push(label@ + ": "@ + failure@));
            }
        }
    }

    /// The outcome of the teardown: every recorded failure, joined by "; ".
    pub fn finish(self) -> (r: Result<(), String>)
        ensures
            match r {
                Ok(()) => self.failures().len() == 0,
                Err(e) => self.failures().len() > 0 && e@ == joined(self.failures(), "; "@),
            },
    {
        if self.errors.len() == 0 {
            return Ok(());
        }
        Err(join_texts(&self.errors, "; "))
    }

    proof fn lemma_skip_keeps_order(&self, before: WindowCloseTree, reg0: WindowRegistry, reg1: WindowRegistry, l: Seq<char>)
        requires
            before.pending() is None,
            before.frames().len() > 0,
            before.frames().last() == CloseFrameView::Enter(l, false),
            reg0.closing().contains(l),
            self.frames() == before.frames().drop_last(),
            self.pending() is None,
            reg1.windows() == reg0.windows(),
            reg1.closing() == reg0.closing(),
        ensures
            before.children_first(reg0) ==> self.children_first(reg1),
    {
        if before.children_first(reg0) {
            let f0 = before.frames();
            let f1 = self.frames();
            assert forall|i: int, c: Seq<char>|
                0 <= i < f1.len() && f1[i] is Exit && #[trigger] children_in(reg1.windows(), frame_label(f1[i])).contains(c)
                implies covered_above(f1, i, c, self.pending(), reg1.closing()) by {
                assert(f0[i] == f1[i]);
                assert(covered_above(f0, i, c, before.pending(), reg0.closing()));
                if !reg0.closing().contains(c) {
                    let j = choose|j: int| i < j < f0.len() && frame_label(#[trigger] f0[j]) == c;
                    if j == f0.len() - 1 {
                        assert(frame_label(f0[j]) == l);
                    } else {
                        assert(frame_label(f1[j]) == c);
                    }
                }
            }
        }
    }

    proof fn lemma_exit_keeps_order(&self, before: WindowCloseTree, reg: WindowRegistry)
        requires
            before.pending() is None,
            before.frames().len() > 0,
            before.frames().last() is Exit,
            self.frames() == before.frames().drop_last(),
            self.pending() matches Some((l, _)) && l == frame_label(before.frames().last()),
        ensures
            before.children_first(reg) ==> self.children_first(reg),
    {
        if before.children_first(reg) {
            let f0 = before.frames();
            let f1 = self.frames();
            let n = f0.len() - 1;
            assert forall|i: int, c: Seq<char>|
                0 <= i < f1.len() && f1[i] is Exit && #[trigger] children_in(reg.windows(), frame_label(f1[i])).contains(c)
                implies covered_above(f1, i, c, self.pending(), reg.closing()) by {
                assert(f0[i] == f1[i]);
                assert(covered_above(f0, i, c, before.pending(), reg.closing()));
                if !reg.closing().contains(c) {
                    let j = choose|j: int| i < j < f0.len() && frame_label(#[trigger] f0[j]) == c;
                    if j < n {
                        assert(frame_label(f1[j]) == c);
                    }
                }
            }
            let l = frame_label(f0.last());
            assert forall|c: Seq<char>| children_in(reg.windows(), l).contains(c) implies reg.closing().contains(c) by {
                assert(children_in(reg.windows(), frame_label(f0[n])).contains(c));
                assert(covered_above(f0, n, c, before.pending(), reg.closing()));
            }
        }
    }

    proof fn lemma_enter_keeps_order(
        &self,
        before: WindowCloseTree,
        reg0: WindowRegistry,
        reg1: WindowRegistry,
        kids: Seq<Seq<char>>,
    )
        requires
            before.pending() is None,
            before.frames().len() > 0,
            before.frames().last() matches CloseFrameView::Enter(l, marked) && {
                &&& self.frames() == before.frames().drop_last().push(CloseFrameView::Exit(l, !marked)) + enter_frames(kids.reverse())
                &&& lists_labels_in_order(kids, children_in(reg0.windows(), l))
            },
            self.pending() is None,
            reg1.windows() == reg0.windows(),
            reg0.closing().subset_of(reg1.closing()),
        ensures
            before.children_first(reg0) ==> self.children_first(reg1),
    {
        if before.children_first(reg0) {
            let f0 = before.frames();
            let f1 = self.frames();
            let n = f0.len() - 1;
            let l = frame_label(f0.last());
            assert forall|i: int, c: Seq<char>|
                0 <= i < f1.len() && f1[i] is Exit && #[trigger] children_in(reg1.windows(), frame_label(f1[i])).contains(c)
                implies covered_above(f1, i, c, self.pending(), reg1.closing()) by {
                if i < n {
                    assert(f0[i] == f1[i]);
                    assert(covered_above(f0, i, c, before.pending(), reg0.closing()));
                    if !reg0.closing().contains(c) {
                        let j = choose|j: int| i < j < f0.len() && frame_label(#[trigger] f0[j]) == c;
                        if j < n {
                            assert(frame_label(f1[j]) == c);
                        } else {
                            assert(frame_label(f1[n]) == l);
                        }
                    }
                } else if i == n {
                    assert(frame_label(f1[n]) == l);
                    let k = choose|k: int| 0 <= k < kids.len() && #[trigger] kids[k] == c;
                    let r = kids.len() - 1 - k;
                    assert(kids.reverse()[r] == c);
                    assert(f1[n + 1 + r] == enter_frames(kids.reverse())[r]);
                    assert(frame_label(f1[n + 1 + r]) == c);
                } else {
                    assert(f1[i] == enter_frames(kids.reverse())[i - n - 1]);
                }
            }
        }
    }
}

/// `parts` joined with `sep` between each two.
pub open spec fn joined(parts: Seq<Seq<char>>, sep: Seq<char>) -> Seq<char>
    decreases parts.len(),
{
    if parts.len() == 0 {
        Seq::empty()
    } else if parts.len() == 1 {
        parts[0]
    } else {
        joined(parts.drop_last(), sep) + sep + parts.last()
    }
}

/// `parts` joined with `sep` between each two.
pub fn join_texts(parts: &Vec<String>, sep: &str) -> (r: String)
    ensures
        r@ == joined(labels_of(parts@), sep@),
{
    let mut r = String::new();
    let ghost all = labels_of(parts@);
    let mut i: usize = 0;
    while i < parts.len()
        invariant
            i <= parts@.len(),
            all == labels_of(parts@),
            r@ == joined(all.take(i as int), sep@),
        decreases parts@.len() - i,
    {
        if i != 0 {
            r.append(sep);
        }
        r.append(parts[i].as_str());
        proof {
            assert(all.take(i + 1).drop_last() =~= all.take(i as int));
            if i == 0 {
                assert(all.take(0) =~= Seq::<Seq<char>>::empty());
                assert(r@ =~= all.take(1)[0]);
            }
        }
        i = i + 1;
    }
    assert(all.take(all.len() as int) =~= all);
    r
}

/// `c` has a frame above index `i`, is the pending label, or is closing.
pub open spec fn covered_above(
    frames: Seq<CloseFrameView>,
    i: int,
    c: Seq<char>,
    pending: Option<(Seq<char>, bool)>,
    closing: Set<Seq<char>>,
) -> bool {
    ||| exists|j: int| i < j < frames.len() && frame_label(#[trigger] frames[j]) == c
    ||| pending matches Some((l, _)) && l == c
    ||| closing.contains(c)
}


/// `p` is a chain of registered windows, each the parent of the next.
pub open spec fn is_parent_path(w: Map<Seq<char>, DescriptorView>, p: Seq<Seq<char>>) -> bool {
    &&& p.len() > 0
    &&& forall|i: int| #![trigger p[i]] 1 <= i < p.len() ==> w.contains_key(p[i]) && w[p[i]].parent == Some(p[i - 1])
}

/// `root` and every window that descends from it in `w`.
pub open spec fn subtree(w: Map<Seq<char>, DescriptorView>, root: Seq<char>) -> Set<Seq<char>> {
    Set::new(|l: Seq<char>| exists|p: Seq<Seq<char>>| #[trigger] is_parent_path(w, p) && p[0] == root && p.last() == l)
}

/// `l` has a frame still to process, or is the label being destroyed.
pub open spec fn has_frame(frames: Seq<CloseFrameView>, pending: Option<(Seq<char>, bool)>, l: Seq<char>) -> bool {
    ||| exists|i: int| 0 <= i < frames.len() && frame_label(#[trigger] frames[i]) == l
    ||| pending matches Some((x, _)) && x == l
}

/// The labels whose closing mark the teardown holds.
pub open spec fn held_labels(frames: Seq<CloseFrameView>, pending: Option<(Seq<char>, bool)>) -> Set<Seq<char>> {
    Set::new(
        |l: Seq<char>|
            (exists|i: int| 0 <= i < frames.len() && #[trigger] frames[i] == CloseFrameView::Exit(l, true)) || pending
                == Some((l, true)),
    )
}

/// The frames have the shape a teardown of an unmarked label gives them:
/// every label lies in `s`, every Enter is unmarked, every Exit holds its
/// mark, and no label is held twice.
pub open spec fn frames_well_shaped(frames: Seq<CloseFrameView>, pending: Option<(Seq<char>, bool)>, s: Set<Seq<char>>) -> bool {
    &&& forall|i: int|
        0 <= i < frames.len() ==> match #[trigger] frames[i] {
            CloseFrameView::Enter(l, marked) => !marked && s.contains(l),
            CloseFrameView::Exit(l, held) => held && s.contains(l),
        }
    &&& pending matches Some((l, held)) ==> held && s.contains(l)
    &&& forall|i: int, j: int|
        0 <= i < frames.len() && 0 <= j < frames.len() && i != j && #[trigger] frames[i] is Exit && #[trigger] frames[j] is Exit
            ==> frame_label(frames[i]) != frame_label(frames[j])
    &&& forall|i: int|
        0 <= i < frames.len() && #[trigger] frames[i] is Exit ==> (pending matches Some((x, _)) ==> frame_label(frames[i]) != x)
}

impl WindowCloseTree {
    /// The teardown of `root`, begun on a registry whose windows were `w0`
    /// and whose closing marks were `c0`, is on course: it keeps children
    /// first; it has removed only windows of the subtree and changed none;
    /// the closing marks are those of `c0` and those it holds; and every
    /// window of the subtree still registered descends from a label it has
    /// yet to process.
    pub open spec fn teardown_progress(
        &self,
        registry: WindowRegistry,
        root: Seq<char>,
        w0: Map<Seq<char>, DescriptorView>,
        c0: Set<Seq<char>>,
    ) -> bool {
        let w = registry.windows();
        let s = subtree(w0, root);
        &&& self.children_first(registry)
        &&& forall|l: Seq<char>| #[trigger] s.contains(l) ==> !c0.contains(l)
        &&& forall|l: Seq<char>| #[trigger] w.contains_key(l) ==> w0.contains_key(l) && w[l] == w0[l]
        &&& forall|l: Seq<char>| #[trigger] w0.contains_key(l) && !w.contains_key(l) ==> s.contains(l)
        &&& frames_well_shaped(self.frames(), self.pending(), s)
        &&& registry.closing() == c0.union(held_labels(self.frames(), self.pending()))
        &&& forall|l: Seq<char>|
            #[trigger] s.contains(l) && w.contains_key(l) ==> exists|p: Seq<Seq<char>>|
                #[trigger] is_parent_path(w, p) && has_frame(self.frames(), self.pending(), p[0]) && p.last() == l
    }
}

/// A teardown just made for an unmarked `root`, none of whose subtree is
/// being closed, is on course.
pub proof fn lemma_teardown_begins(tree: WindowCloseTree, registry: WindowRegistry, root: Seq<char>)
    requires
        tree.frames() == seq![CloseFrameView::Enter(root, false)],
        tree.pending() is None,
        forall|l: Seq<char>| #[trigger] subtree(registry.windows(), root).contains(l) ==> !registry.closing().contains(l),
    ensures
        tree.teardown_progress(registry, root, registry.windows(), registry.closing()),
{
    let w = registry.windows();
    let f = tree.frames();
    let s = subtree(w, root);
    assert(is_parent_path(w, seq![root]));
    assert(s.contains(root));
    assert forall|i: int, c: Seq<char>|
        0 <= i < f.len() && f[i] is Exit && #[trigger] children_in(w, frame_label(f[i])).contains(c)
        implies covered_above(f, i, c, tree.pending(), registry.closing()) by {
        assert(f[0] is Enter);
    }
    assert(held_labels(f, None) =~= Set::<Seq<char>>::empty()) by {
        assert forall|l: Seq<char>| !held_labels(f, None).contains(l) by {
            assert(f[0] is Enter);
        }
    }
    assert(registry.closing() =~= registry.closing().union(held_labels(f, tree.pending())));
    assert forall|l: Seq<char>| #[trigger] s.contains(l) && w.contains_key(l) implies exists|p: Seq<Seq<char>>|
        #[trigger] is_parent_path(w, p) && has_frame(f, tree.pending(), p[0]) && p.last() == l by {
        let p = choose|p: Seq<Seq<char>>| #[trigger] is_parent_path(w, p) && p[0] == root && p.last() == l;
        assert(frame_label(f[0]) == root);
        assert(has_frame(f, tree.pending(), p[0]));
    }
}

/// A teardown on course that has run to its end has removed exactly the
/// subtree of its root, as the registry held it at the start, and left
/// the closing marks as they were. With `lemma_teardown_begins` and the
/// `ensures` of `step` and `complete_exit`, which keep a teardown on
/// course, this says that driving a teardown of an unmarked label, none of
/// whose subtree is being closed, to `Done` removes exactly that subtree.
pub proof fn lemma_teardown_done(
    tree: WindowCloseTree,
    registry: WindowRegistry,
    root: Seq<char>,
    w0: Map<Seq<char>, DescriptorView>,
    c0: Set<Seq<char>>,
)
    requires
        tree.teardown_progress(registry, root, w0, c0),
        tree.frames().len() == 0,
        tree.pending() is None,
    ensures
        registry.windows() == w0.remove_keys(subtree(w0, root)),
        registry.closing() == c0,
{
    let w = registry.windows();
    let s = subtree(w0, root);
    assert forall|l: Seq<char>| #[trigger] w.contains_key(l) implies !s.contains(l) by {
        if s.contains(l) {
            let p = choose|p: Seq<Seq<char>>| #[trigger] is_parent_path(w, p) && has_frame(tree.frames(), tree.pending(), p[0]) && p.last() == l;
        }
    }
    assert(w =~= w0.remove_keys(s));
    assert(held_labels(tree.frames(), tree.pending()) =~= Set::<Seq<char>>::empty());
    assert(registry.closing() =~= c0);
}

/// The whole-teardown law. Take the states of a teardown and its registry
/// as `step` and `complete_exit` drive them, each pair of neighbours
/// related as their `ensures` relate the states before and after a call
/// (a teardown on course stays on course). If the teardown starts from an
/// unmarked `root` none of whose subtree is being closed, and ends with
/// nothing left to process, then it has removed exactly the subtree of
/// `root`, as the registry held it at the start, and left the closing
/// marks as they were.
pub proof fn lemma_teardown_removes_subtree(trees: Seq<WindowCloseTree>, registries: Seq<WindowRegistry>, root: Seq<char>)
    requires
        trees.len() > 0,
        registries.len() == trees.len(),
        trees[0].frames() == seq![CloseFrameView::Enter(root, false)],
        trees[0].pending() is None,
        forall|l: Seq<char>| #[trigger] subtree(registries[0].windows(), root).contains(l) ==> !registries[0].closing().contains(l),
        forall|i: int, w0: Map<Seq<char>, DescriptorView>, c0: Set<Seq<char>>|
            0 <= i < trees.len() - 1 && #[trigger] trees[i].teardown_progress(registries[i], root, w0, c0)
                ==> trees[i + 1].teardown_progress(registries[i + 1], root, w0, c0),
        trees.last().frames().len() == 0,
        trees.last().pending() is None,
    ensures
        registries.last().windows() == registries[0].windows().remove_keys(subtree(registries[0].windows(), root)),
        registries.last().closing() == registries[0].closing(),
{
    let w0 = registries[0].windows();
    let c0 = registries[0].closing();
    lemma_teardown_begins(trees[0], registries[0], root);
    lemma_progress_along(trees, registries, root, w0, c0, trees.len() - 1);
    lemma_teardown_done(trees.last(), registries.last(), root, w0, c0);
}

/// A run each of whose moves keeps a teardown on course, and which starts
/// on course, is on course at every point of it.
proof fn lemma_progress_along(
    trees: Seq<WindowCloseTree>,
    registries: Seq<WindowRegistry>,
    root: Seq<char>,
    w0: Map<Seq<char>, DescriptorView>,
    c0: Set<Seq<char>>,
    i: int,
)
    requires
        0 <= i < trees.len(),
        registries.len() == trees.len(),
        trees[0].teardown_progress(registries[0], root, w0, c0),
        forall|j: int, w0: Map<Seq<char>, DescriptorView>, c0: Set<Seq<char>>|
            0 <= j < trees.len() - 1 && #[trigger] trees[j].teardown_progress(registries[j], root, w0, c0)
                ==> trees[j + 1].teardown_progress(registries[j + 1], root, w0, c0),
    ensures
        trees[i].teardown_progress(registries[i], root, w0, c0),
    decreases i,
{
    if i > 0 {
        lemma_progress_along(trees, registries, root, w0, c0, i - 1);
    }
}

/// Skipping the Enter frame of a label already being closed keeps a
/// teardown on course.
proof fn lemma_progress_skip(
    t0: WindowCloseTree,
    r0: WindowRegistry,
    t1: WindowCloseTree,
    r1: WindowRegistry,
    root: Seq<char>,
    w0: Map<Seq<char>, DescriptorView>,
    c0: Set<Seq<char>>,
)
    requires
        t0.teardown_progress(r0, root, w0, c0),
        t0.pending() is None,
        t0.frames().len() > 0,
        t0.frames().last() is Enter,
        r0.closing().contains(frame_label(t0.frames().last())),
        t1.frames() == t0.frames().drop_last(),
        t1.pending() is None,
        r1.windows() == r0.windows(),
        r1.closing() == r0.closing(),
        t1.children_first(r1),
    ensures
        t1.teardown_progress(r1, root, w0, c0),
{
    let f0 = t0.frames();
    let f1 = t1.frames();
    let n = f0.len() - 1;
    let l = frame_label(f0[n]);
    let s = subtree(w0, root);
    let w = r0.windows();
    assert forall|i: int| 0 <= i < f1.len() implies #[trigger] f1[i] == f0[i] by {}
    assert(frames_well_shaped(f1, None, s)) by {
        assert forall|i: int| 0 <= i < f1.len() implies match #[trigger] f1[i] {
            CloseFrameView::Enter(l, marked) => !marked && s.contains(l),
            CloseFrameView::Exit(l, held) => held && s.contains(l),
        } by {
            assert(f1[i] == f0[i]);
        }
        assert forall|i: int, j: int|
            0 <= i < f1.len() && 0 <= j < f1.len() && i != j && #[trigger] f1[i] is Exit && #[trigger] f1[j] is Exit
            implies frame_label(f1[i]) != frame_label(f1[j]) by {
            assert(f1[i] == f0[i] && f1[j] == f0[j]);
        }
    }
    assert(held_labels(f1, None) =~= held_labels(f0, None)) by {
        assert forall|x: Seq<char>| held_labels(f0, None).contains(x) implies held_labels(f1, None).contains(x) by {
            let i = choose|i: int| 0 <= i < f0.len() && #[trigger] f0[i] == CloseFrameView::Exit(x, true);
            assert(i != n);
            assert(f1[i] == f0[i]);
        }
        assert forall|x: Seq<char>| held_labels(f1, None).contains(x) implies held_labels(f0, None).contains(x) by {
            let i = choose|i: int| 0 <= i < f1.len() && #[trigger] f1[i] == CloseFrameView::Exit(x, true);
            assert(f0[i] == f1[i]);
        }
    }
    assert(match f0[n] {
        CloseFrameView::Enter(l, marked) => !marked && s.contains(l),
        CloseFrameView::Exit(l, held) => held && s.contains(l),
    });
    assert(s.contains(l));
    assert(held_labels(f0, None).contains(l));
    let k = choose|k: int| 0 <= k < f0.len() && #[trigger] f0[k] == CloseFrameView::Exit(l, true);
    assert(k != n);
    assert(f1[k] == f0[k]);
    assert(frame_label(f1[k]) == l);
    assert forall|x: Seq<char>| #[trigger] s.contains(x) && w.contains_key(x) implies exists|p: Seq<Seq<char>>|
        #[trigger] is_parent_path(w, p) && has_frame(f1, None, p[0]) && p.last() == x by {
        let p = choose|p: Seq<Seq<char>>| #[trigger] is_parent_path(w, p) && has_frame(f0, None, p[0]) && p.last() == x;
        let j = choose|j: int| 0 <= j < f0.len() && frame_label(#[trigger] f0[j]) == p[0];
        if j == n {
            assert(has_frame(f1, None, p[0]));
        } else {
            assert(f1[j] == f0[j]);
            assert(has_frame(f1, None, p[0]));
        }
    }
}

/// Moving the Exit frame of a label to the label being destroyed keeps a
/// teardown on course.
proof fn lemma_progress_exit(
    t0: WindowCloseTree,
    r0: WindowRegistry,
    t1: WindowCloseTree,
    r1: WindowRegistry,
    root: Seq<char>,
    w0: Map<Seq<char>, DescriptorView>,
    c0: Set<Seq<char>>,
)
    requires
        t0.teardown_progress(r0, root, w0, c0),
        t0.pending() is None,
        t0.frames().len() > 0,
        t0.frames().last() matches CloseFrameView::Exit(l, h) && t1.pending() == Some((l, h)),
        t1.frames() == t0.frames().drop_last(),
        r1.windows() == r0.windows(),
        r1.closing() == r0.closing(),
        t1.children_first(r1),
    ensures
        t1.teardown_progress(r1, root, w0, c0),
{
    let f0 = t0.frames();
    let f1 = t1.frames();
    let n = f0.len() - 1;
    let l = frame_label(f0[n]);
    let pend = t1.pending();
    let s = subtree(w0, root);
    let w = r0.windows();
    assert forall|i: int| 0 <= i < f1.len() implies #[trigger] f1[i] == f0[i] by {}
    assert(match f0[n] {
        CloseFrameView::Enter(l, marked) => !marked && s.contains(l),
        CloseFrameView::Exit(l, held) => held && s.contains(l),
    });
    assert(pend == Some((l, true)));
    assert(frames_well_shaped(f1, pend, s)) by {
        assert forall|i: int| 0 <= i < f1.len() implies match #[trigger] f1[i] {
            CloseFrameView::Enter(l, marked) => !marked && s.contains(l),
            CloseFrameView::Exit(l, held) => held && s.contains(l),
        } by {
            assert(f1[i] == f0[i]);
        }
        assert forall|i: int, j: int|
            0 <= i < f1.len() && 0 <= j < f1.len() && i != j && #[trigger] f1[i] is Exit && #[trigger] f1[j] is Exit
            implies frame_label(f1[i]) != frame_label(f1[j]) by {
            assert(f1[i] == f0[i] && f1[j] == f0[j]);
        }
        assert forall|i: int| 0 <= i < f1.len() && #[trigger] f1[i] is Exit implies (pend matches Some((x, _)) ==> frame_label(
            f1[i],
        ) != x) by {
            assert(f1[i] == f0[i]);
            assert(f0[n] is Exit);
        }
    }
    assert(held_labels(f1, pend) =~= held_labels(f0, None)) by {
        assert forall|x: Seq<char>| held_labels(f0, None).contains(x) implies held_labels(f1, pend).contains(x) by {
            let i = choose|i: int| 0 <= i < f0.len() && #[trigger] f0[i] == CloseFrameView::Exit(x, true);
            if i != n {
                assert(f1[i] == f0[i]);
            }
        }
        assert forall|x: Seq<char>| held_labels(f1, pend).contains(x) implies held_labels(f0, None).contains(x) by {
            if pend == Some((x, true)) {
                assert(f0[n] == CloseFrameView::Exit(x, true));
            } else {
                let i = choose|i: int| 0 <= i < f1.len() && #[trigger] f1[i] == CloseFrameView::Exit(x, true);
                assert(f0[i] == f1[i]);
            }
        }
    }
    assert forall|x: Seq<char>| #[trigger] s.contains(x) && w.contains_key(x) implies exists|p: Seq<Seq<char>>|
        #[trigger] is_parent_path(w, p) && has_frame(f1, pend, p[0]) && p.last() == x by {
        let p = choose|p: Seq<Seq<char>>| #[trigger] is_parent_path(w, p) && has_frame(f0, None, p[0]) && p.last() == x;
        let j = choose|j: int| 0 <= j < f0.len() && frame_label(#[trigger] f0[j]) == p[0];
        if j != n {
            assert(f1[j] == f0[j]);
        }
        assert(has_frame(f1, pend, p[0]));
    }
}

/// Entering a label that is not being closed, marking it and queuing its
/// children, keeps a teardown on course.
proof fn lemma_progress_enter(
    t0: WindowCloseTree,
    r0: WindowRegistry,
    t1: WindowCloseTree,
    r1: WindowRegistry,
    kids: Seq<Seq<char>>,
    root: Seq<char>,
    w0: Map<Seq<char>, DescriptorView>,
    c0: Set<Seq<char>>,
)
    requires
        t0.teardown_progress(r0, root, w0, c0),
        t0.pending() is None,
        t0.frames().len() > 0,
        t0.frames().last() matches CloseFrameView::Enter(l, marked) && {
            &&& !r0.closing().contains(l)
            &&& t1.frames() == t0.frames().drop_last().push(CloseFrameView::Exit(l, !marked)) + enter_frames(kids.reverse())
            &&& lists_labels_in_order(kids, children_in(r0.windows(), l))
            &&& r1.closing() == r0.closing().insert(l)
        },
        t1.pending() is None,
        r1.windows() == r0.windows(),
        t1.children_first(r1),
    ensures
        t1.teardown_progress(r1, root, w0, c0),
{
    let f0 = t0.frames();
    let f1 = t1.frames();
    let n = f0.len() - 1;
    let l = frame_label(f0[n]);
    let s = subtree(w0, root);
    let w = r0.windows();
    let rk = kids.reverse();
    assert(match f0[n] {
        CloseFrameView::Enter(l, marked) => !marked && s.contains(l),
        CloseFrameView::Exit(l, held) => held && s.contains(l),
    });
    assert(f1[n] == CloseFrameView::Exit(l, true));
    assert forall|i: int| 0 <= i < n implies #[trigger] f1[i] == f0[i] by {}
    assert forall|k: int| 0 <= k < rk.len() implies #[trigger] f1[n + 1 + k] == CloseFrameView::Enter(rk[k], false) by {
        assert(f1[n + 1 + k] == enter_frames(rk)[k]);
    }
    assert forall|k: int| 0 <= k < rk.len() implies s.contains(#[trigger] rk[k]) by {
        let c = rk[k];
        assert(c == kids[kids.len() - 1 - k]);
        assert(children_in(w, l).contains(c));
        assert(w0.contains_key(c) && w[c] == w0[c]);
        let q = seq![l, c];
        assert(is_parent_path(w0, q)) by {
            assert forall|i: int| #![trigger q[i]] 1 <= i < q.len() implies w0.contains_key(q[i]) && w0[q[i]].parent == Some(q[i - 1]) by {
                assert(q[1] == c && q[0] == l);
            }
        }
        lemma_subtree_follows_path(w0, root, q);
    }
    let held0 = held_labels(f0, None);
    assert(!held0.contains(l));
    assert(frames_well_shaped(f1, None, s)) by {
        assert forall|i: int| 0 <= i < f1.len() implies match #[trigger] f1[i] {
            CloseFrameView::Enter(l, marked) => !marked && s.contains(l),
            CloseFrameView::Exit(l, held) => held && s.contains(l),
        } by {
            if i < n {
                assert(f1[i] == f0[i]);
            } else if i > n {
                assert(f1[i] == CloseFrameView::Enter(rk[i - n - 1], false));
            }
        }
        assert forall|i: int, j: int|
            0 <= i < f1.len() && 0 <= j < f1.len() && i != j && #[trigger] f1[i] is Exit && #[trigger] f1[j] is Exit
            implies frame_label(f1[i]) != frame_label(f1[j]) by {
            if i > n {
                assert(f1[i] == CloseFrameView::Enter(rk[i - n - 1], false));
            } else if j > n {
                assert(f1[j] == CloseFrameView::Enter(rk[j - n - 1], false));
            } else if i == n {
                assert(f1[j] == f0[j]);
                assert(f0[j] == CloseFrameView::Exit(frame_label(f0[j]), true));
                if frame_label(f0[j]) == l {
                    assert(held0.contains(l));
                }
            } else if j == n {
                assert(f1[i] == f0[i]);
                assert(f0[i] == CloseFrameView::Exit(frame_label(f0[i]), true));
                if frame_label(f0[i]) == l {
                    assert(held0.contains(l));
                }
            } else {
                assert(f1[i] == f0[i] && f1[j] == f0[j]);
            }
        }
    }
    assert(held_labels(f1, None) =~= held0.insert(l)) by {
        assert forall|x: Seq<char>| held0.insert(l).contains(x) implies held_labels(f1, None).contains(x) by {
            if x == l {
                assert(f1[n] == CloseFrameView::Exit(x, true));
            } else {
                let i = choose|i: int| 0 <= i < f0.len() && #[trigger] f0[i] == CloseFrameView::Exit(x, true);
                assert(i != n);
                assert(f1[i] == f0[i]);
            }
        }
        assert forall|x: Seq<char>| held_labels(f1, None).contains(x) implies held0.insert(l).contains(x) by {
            let i = choose|i: int| 0 <= i < f1.len() && #[trigger] f1[i] == CloseFrameView::Exit(x, true);
            if i < n {
                assert(f0[i] == f1[i]);
            } else if i > n {
                assert(f1[i] == CloseFrameView::Enter(rk[i - n - 1], false));
            }
        }
    }
    assert(r1.closing() =~= c0.union(held_labels(f1, None)));
    assert forall|x: Seq<char>| #[trigger] s.contains(x) && w.contains_key(x) implies exists|p: Seq<Seq<char>>|
        #[trigger] is_parent_path(w, p) && has_frame(f1, None, p[0]) && p.last() == x by {
        let p = choose|p: Seq<Seq<char>>| #[trigger] is_parent_path(w, p) && has_frame(f0, None, p[0]) && p.last() == x;
        let j = choose|j: int| 0 <= j < f0.len() && frame_label(#[trigger] f0[j]) == p[0];
        if j < n {
            assert(f1[j] == f0[j]);
        } else {
            assert(frame_label(f1[n]) == l);
        }
        assert(has_frame(f1, None, p[0]));
    }
}

/// Removing the label being destroyed and ending its mark keeps a
/// teardown on course.
proof fn lemma_progress_complete(
    t0: WindowCloseTree,
    r0: WindowRegistry,
    t1: WindowCloseTree,
    r1: WindowRegistry,
    root: Seq<char>,
    w0: Map<Seq<char>, DescriptorView>,
    c0: Set<Seq<char>>,
)
    requires
        t0.teardown_progress(r0, root, w0, c0),
        t0.pending() matches Some((l, h)) && {
            &&& r1.windows() == r0.windows().remove(l)
            &&& r1.closing() == if h {
                r0.closing().remove(l)
            } else {
                r0.closing()
            }
        },
        t1.frames() == t0.frames(),
        t1.pending() is None,
        t1.children_first(r1),
    ensures
        t1.teardown_progress(r1, root, w0, c0),
{
    let f = t0.frames();
    let pend = t0.pending();
    let l = match pend {
        Some((x, _)) => x,
        None => Seq::empty(),
    };
    let s = subtree(w0, root);
    let w = r0.windows();
    let w1 = r1.windows();
    assert(pend == Some((l, true)));
    assert(s.contains(l));
    let held0 = held_labels(f, pend);
    assert(held_labels(f, None) =~= held0.remove(l)) by {
        assert forall|x: Seq<char>| held0.remove(l).contains(x) implies held_labels(f, None).contains(x) by {}
        assert forall|x: Seq<char>| held_labels(f, None).contains(x) implies held0.remove(l).contains(x) by {
            let i = choose|i: int| 0 <= i < f.len() && #[trigger] f[i] == CloseFrameView::Exit(x, true);
            assert(f[i] is Exit);
        }
    }
    assert(r1.closing() =~= c0.union(held_labels(f, None)));
    assert(frames_well_shaped(f, None, s));
    assert forall|x: Seq<char>| #[trigger] w1.contains_key(x) implies w0.contains_key(x) && w1[x] == w0[x] by {
        assert(w.contains_key(x));
    }
    assert forall|x: Seq<char>| #[trigger] w0.contains_key(x) && !w1.contains_key(x) implies s.contains(x) by {
        if x != l {
            assert(!w.contains_key(x));
        }
    }
    assert forall|x: Seq<char>| #[trigger] s.contains(x) && w1.contains_key(x) implies exists|q: Seq<Seq<char>>|
        #[trigger] is_parent_path(w1, q) && has_frame(f, None, q[0]) && q.last() == x by {
        assert(w.contains_key(x));
        let p = choose|p: Seq<Seq<char>>| #[trigger] is_parent_path(w, p) && has_frame(f, pend, p[0]) && p.last() == x;
        if exists|k: int| 0 <= k < p.len() && #[trigger] p[k] == l {
            let k = lemma_last_occurrence(p, l);
            assert(k < p.len() - 1);
            let c = p[k + 1];
            assert(w.contains_key(c) && w[c].parent == Some(p[k]));
            assert(children_in(w, l).contains(c));
            assert(r0.closing().contains(c));
            lemma_path_in_larger(w, w0, p);
            assert(s.contains(p[0])) by {
                if pend matches Some((y, _)) && y == p[0] {
                } else {
                    let j = choose|j: int| 0 <= j < f.len() && frame_label(#[trigger] f[j]) == p[0];
                    assert(match f[j] {
                        CloseFrameView::Enter(l, marked) => !marked && s.contains(l),
                        CloseFrameView::Exit(l, held) => held && s.contains(l),
                    });
                }
            }
            let front = p.take(k + 2);
            assert(is_parent_path(w0, front)) by {
                assert forall|i: int| #![trigger front[i]] 1 <= i < front.len() implies w0.contains_key(front[i]) && w0[front[i]].parent
                    == Some(front[i - 1]) by {
                    assert(front[i] == p[i] && front[i - 1] == p[i - 1]);
                }
            }
            lemma_subtree_follows_path(w0, root, front);
            assert(front.last() == c);
            assert(!c0.contains(c));
            assert(held0.contains(c));
            assert(c != l);
            let i = choose|i: int| 0 <= i < f.len() && #[trigger] f[i] == CloseFrameView::Exit(c, true);
            assert(frame_label(f[i]) == c);
            let q = p.skip(k + 1);
            assert forall|m: int| #![trigger q[m]] 1 <= m < q.len() implies w1.contains_key(q[m]) && w1[q[m]].parent == Some(q[m - 1]) by {
                assert(q[m] == p[k + 1 + m] && q[m - 1] == p[k + m]);
                assert(w.contains_key(p[k + 1 + m]));
            }
            assert(is_parent_path(w1, q));
            assert(has_frame(f, None, q[0]));
            assert(q.last() == x);
        } else {
            assert forall|i: int| #![trigger p[i]] 1 <= i < p.len() implies w1.contains_key(p[i]) && w1[p[i]].parent == Some(p[i - 1]) by {
                assert(w.contains_key(p[i]));
            }
            assert(is_parent_path(w1, p));
            if !has_frame(f, None, p[0]) {
                assert(p[0] == l);
                assert(p[0] == l);
            }
        }
    }
}

/// The last index at which `p` holds `l`.
proof fn lemma_last_occurrence(p: Seq<Seq<char>>, l: Seq<char>) -> (k: int)
    requires
        exists|k: int| 0 <= k < p.len() && #[trigger] p[k] == l,
    ensures
        0 <= k < p.len(),
        p[k] == l,
        forall|m: int| k < m < p.len() ==> #[trigger] p[m] != l,
    decreases p.len(),
{
    if p.last() == l {
        p.len() - 1
    } else {
        let w = choose|k: int| 0 <= k < p.len() && #[trigger] p[k] == l;
        assert(p.drop_last()[w] == l);
        let k = lemma_last_occurrence(p.drop_last(), l);
        assert forall|m: int| k < m < p.len() implies #[trigger] p[m] != l by {
            if m < p.len() - 1 {
                assert(p.drop_last()[m] == p[m]);
            }
        }
        k
    }
}

/// A path in a part of `w0` is a path in `w0`.
proof fn lemma_path_in_larger(w: Map<Seq<char>, DescriptorView>, w0: Map<Seq<char>, DescriptorView>, p: Seq<Seq<char>>)
    requires
        is_parent_path(w, p),
        forall|l: Seq<char>| #[trigger] w.contains_key(l) ==> w0.contains_key(l) && w[l] == w0[l],
    ensures
        is_parent_path(w0, p),
{
    assert forall|i: int| #![trigger p[i]] 1 <= i < p.len() implies w0.contains_key(p[i]) && w0[p[i]].parent == Some(p[i - 1]) by {
        assert(w.contains_key(p[i]));
    }
}

/// The subtree is closed under descent along a path.
proof fn lemma_subtree_follows_path(w0: Map<Seq<char>, DescriptorView>, root: Seq<char>, q: Seq<Seq<char>>)
    requires
        subtree(w0, root).contains(q[0]),
        is_parent_path(w0, q),
    ensures
        subtree(w0, root).contains(q.last()),
{
    let r = choose|r: Seq<Seq<char>>| #[trigger] is_parent_path(w0, r) && r[0] == root && r.last() == q[0];
    let joined = r + q.drop_first();
    assert forall|i: int| #![trigger joined[i]] 1 <= i < joined.len() implies w0.contains_key(joined[i]) && w0[joined[i]].parent
        == Some(joined[i - 1]) by {
        if i < r.len() {
            assert(joined[i] == r[i]);
            assert(joined[i - 1] == r[i - 1]);
        } else {
            assert(joined[i] == q[i - r.len() + 1]);
            assert(w0.contains_key(q[i - r.len() + 1]));
            if i == r.len() {
                assert(joined[i - 1] == r.last());
            } else {
                assert(joined[i - 1] == q[i - r.len()]);
            }
        }
    }
    assert(is_parent_path(w0, joined));
    if q.len() == 1 {
        assert(joined =~= r);
    } else {
        assert(joined.last() == q.last());
    }
    assert(joined[0] == root);
}

} // verus!
