//! The decisions behind the window commands: request normalisation, the
//! descriptor of an opened window, startup restore planning and the
//! cleanup of stale persisted windows.

use vstd::prelude::*;
use crate::descriptor::{DescriptorView, WindowDescriptor, WindowGeometry, views_of};
use crate::error::{WindowSystemErrorKind, error_text, window_system_error};
use crate::registry::{WindowRegistry, WindowReservation, labels_of};
use crate::text::{LabelOrder, compare_labels};
use crate::text::{is_blank, lemma_trimmed_idempotent, trim_text, trimmed};

verus! {

/// What a caller asks `open_window` for.
#[derive(Clone, Debug)]
pub struct OpenWindowRequest {
    pub label: String,
    pub url: Option<String>,
    pub parent: Option<String>,
    pub title: Option<String>,
    pub geometry: Option<WindowGeometry>,
}

/// A request after trimming, defaulting and geometry lookup.
#[derive(Clone, Debug)]
pub struct NormalizedOpenWindowRequest {
    pub label: String,
    pub url: String,
    pub parent: Option<String>,
    pub title: Option<String>,
    pub geometry: Option<WindowGeometry>,
}

/// The URL a window gets when none is given.
pub open spec fn default_url() -> Seq<char> {
    "index.html"@
}

/// The text of a required field: trimmed, or the error a blank value gets.
pub open spec fn required_text(value: Seq<char>, field_name: Seq<char>) -> Result<Seq<char>, Seq<char>> {
    if is_blank(value) {
        Err(error_text(WindowSystemErrorKind::InvalidLabel, field_name + " is required"@))
    } else {
        Ok(trimmed(value))
    }
}

/// An optional text, trimmed, where a blank one counts as absent.
pub open spec fn optional_text(value: Option<Seq<char>>) -> Option<Seq<char>> {
    match value {
        Some(v) => if is_blank(v) {
            None
        } else {
            Some(trimmed(v))
        },
        None => None,
    }
}

/// The URL of a window: the trimmed text given, or the default where none
/// or a blank one is given.
pub open spec fn window_url(url: Option<Seq<char>>) -> Seq<char> {
    match url {
        Some(u) => if is_blank(u) {
            default_url()
        } else {
            trimmed(u)
        },
        None => default_url(),
    }
}

pub fn normalize_required_text(value: String, field_name: &str) -> (r: Result<String, String>)
    ensures
        match r {
            Ok(t) => required_text(value@, field_name@) == Ok::<Seq<char>, Seq<char>>(t@),
            Err(e) => required_text(value@, field_name@) == Err::<Seq<char>, Seq<char>>(e@),
        },
{
    let normalized = trim_text(value.as_str());
    if normalized.as_str().is_empty() {
        let mut message = String::from_str(field_name);
        message.append(" is required");
        return Err(window_system_error(WindowSystemErrorKind::InvalidLabel, message.as_str()));
    }
    Ok(normalized)
}

pub fn normalize_optional_text(value: Option<String>) -> (r: Option<String>)
    ensures
        r.deep_view() == optional_text(value.deep_view()),
{
    match value {
        Some(v) => {
            let t = trim_text(v.as_str());
            if t.as_str().is_empty() {
                None
            } else {
                Some(t)
            }
        },
        None => None,
    }
}

pub fn normalize_window_url(url: Option<String>) -> (r: String)
    ensures
        r@ == window_url(url.deep_view()),
{
    match url {
        Some(u) => {
            let normalized = trim_text(u.as_str());
            if normalized.as_str().is_empty() {
                String::from_str("index.html")
            } else {
                normalized
            }
        },
        None => String::from_str("index.html"),
    }
}

/// Normalises an open request: label required and trimmed, optional texts
/// trimmed with blanks dropped, URL defaulted, and the geometry taken from
/// the request or else from what the registry's store last recorded for
/// the label.
pub fn normalize_open_window_request(registry: &WindowRegistry, request: OpenWindowRequest) -> (r: Result<
    NormalizedOpenWindowRequest,
    String,
>)
    requires
        registry.wf(),
    ensures
        match r {
            Ok(n) => {
                &&& required_text(request.label@, "label"@) == Ok::<Seq<char>, Seq<char>>(n.label@)
                &&& n.url@ == window_url(request.url.deep_view())
                &&& n.parent.deep_view() == optional_text(request.parent.deep_view())
                &&& n.title.deep_view() == optional_text(request.title.deep_view())
                &&& n.geometry == match request.geometry {
                    Some(g) => Some(g),
                    None => if registry.store().geometry_map().contains_key(n.label@) {
                        Some(registry.store().geometry_map()[n.label@])
                    } else {
                        None
                    },
                }
            },
            Err(e) => required_text(request.label@, "label"@) == Err::<Seq<char>, Seq<char>>(e@),
        },
{
    let OpenWindowRequest { label, url, parent, title, geometry } = request;
    let label = normalize_required_text(label, "label")?;
    let parent = normalize_optional_text(parent);
    let title = normalize_optional_text(title);
    let url = normalize_window_url(url);
    let geometry = match geometry {
        Some(g) => Some(g),
        None => registry.restore_geometry(label.as_str()),
    };
    Ok(NormalizedOpenWindowRequest { label, url, parent, title, geometry })
}

/// Normalising what normalisation produced gives it back, so a window
/// restored from its recorded descriptor keeps its label, URL, parent and
/// title.
pub proof fn lemma_normalization_idempotent(label: Seq<char>, url: Option<Seq<char>>, text: Option<Seq<char>>)
    ensures
        required_text(label, "label"@) matches Ok(t) ==> required_text(t, "label"@) == Ok::<Seq<char>, Seq<char>>(t),
        window_url(Some(window_url(url))) == window_url(url),
        optional_text(optional_text(text)) == optional_text(text),
{
    lemma_trimmed_idempotent(label);
    if let Some(u) = url {
        lemma_trimmed_idempotent(u);
    }
    if let Some(t) = text {
        lemma_trimmed_idempotent(t);
    }
    reveal_strlit("index.html");
    let d = default_url();
    assert(!crate::text::is_white_space(d[0]));
    assert(crate::text::trim_start(d) == d);
    assert(!crate::text::is_white_space(d.last()));
    assert(crate::text::trim_end(d) == d);
}

/// The descriptor an opened window is registered with: the normalised
/// request, with the window's own title where the request gives none.
pub fn open_window_descriptor(request: &NormalizedOpenWindowRequest, window_title: Option<String>) -> (r:
    WindowDescriptor)
    ensures
        r@ == (DescriptorView {
            label: request.label@,
            url: request.url@,
            parent: request.parent.deep_view(),
            title: match request.title {
                Some(t) => Some(t@),
                None => window_title.deep_view(),
            },
            geometry: request.geometry,
        }),
{
    let title = match &request.title {
        Some(t) => Some(t.clone()),
        None => window_title,
    };
    let parent = match &request.parent {
        Some(p) => Some(p.clone()),
        None => None,
    };
    WindowDescriptor {
        label: request.label.clone(),
        url: request.url.clone(),
        parent,
        title,
        geometry: request.geometry,
    }
}


/// The open request that restores a tracked window as it was recorded.
pub fn restore_request(descriptor: &WindowDescriptor) -> (r: OpenWindowRequest)
    ensures
        r.label@ == descriptor.label@,
        r.url.deep_view() == Some(descriptor.url@),
        r.parent.deep_view() == descriptor.parent.deep_view(),
        r.title.deep_view() == descriptor.title.deep_view(),
        r.geometry == descriptor.geometry,
{
    let parent = match &descriptor.parent {
        Some(p) => Some(p.clone()),
        None => None,
    };
    let title = match &descriptor.title {
        Some(t) => Some(t.clone()),
        None => None,
    };
    OpenWindowRequest {
        label: descriptor.label.clone(),
        url: Some(descriptor.url.clone()),
        parent,
        title,
        geometry: descriptor.geometry,
    }
}

/// The registry side of opening a window. The caller builds the native
/// window between `start` and `register`, and on any failure calls `abort`,
/// which undoes what the registry holds and says whether the native window
/// is to be destroyed (never one that was reused).
pub struct OpenWindowFlow {
    request: NormalizedOpenWindowRequest,
    reservation: WindowReservation,
    reused: bool,
    registered: bool,
}

impl OpenWindowFlow {
    /// The label the flow reserved and registers: the normalised request's.
    pub open spec fn label_view(&self) -> Seq<char> {
        self.request_view().label@
    }

    pub closed spec fn request_view(&self) -> NormalizedOpenWindowRequest {
        self.request
    }

    pub closed spec fn is_reused(&self) -> bool {
        self.reused
    }

    pub closed spec fn is_registered(&self) -> bool {
        self.registered
    }

    /// The reservation is committed exactly when the window is registered.
    pub open spec fn is_committed(&self) -> bool {
        self.is_registered()
    }

    pub closed spec fn wf(&self) -> bool {
        &&& self.reservation.label_view() == self.request.label@
        &&& self.registered == self.reservation.is_committed()
    }

    /// Normalises `request` and reserves its label under its parent.
    pub fn start(registry: &mut WindowRegistry, request: OpenWindowRequest) -> (r: Result<OpenWindowFlow, String>)
        requires
            old(registry).wf(),
        ensures
            final(registry).wf(),
            final(registry).windows() == old(registry).windows(),
            final(registry).closing() == old(registry).closing(),
            final(registry).store() == old(registry).store(),
            match required_text(request.label@, "label"@) {
                Err(e) => r matches Err(x) && x@ == e && final(registry).reserved() == old(registry).reserved(),
                Ok(label) => {
                    let parent = optional_text(request.parent.deep_view());
                    match old(registry).reserve_error(label, parent) {
                        Some(e) => r matches Err(x) && x@ == e && final(registry).reserved() == old(registry).reserved(),
                        None => r matches Ok(flow) && {
                            &&& flow.wf()
                            &&& flow.label_view() == label
                            &&& flow.request_view().url@ == window_url(request.url.deep_view())
                            &&& flow.request_view().parent.deep_view() == parent
                            &&& flow.request_view().title.deep_view() == optional_text(request.title.deep_view())
                            &&& flow.request_view().geometry == match request.geometry {
                                Some(g) => Some(g),
                                None => if old(registry).store().geometry_map().contains_key(label) {
                                    Some(old(registry).store().geometry_map()[label])
                                } else {
                                    None
                                },
                            }
                            &&& !flow.is_reused()
                            &&& !flow.is_registered()
                            &&& final(registry).reserved() == old(registry).reserved().insert(label)
                        },
                    }
                },
            },
    {
        let request = normalize_open_window_request(registry, request)?;
        let reservation = match &request.parent {
            Some(p) => registry.reserve_window(request.label.as_str(), Some(p.as_str())),
            None => registry.reserve_window(request.label.as_str(), None),
        };
        let reservation = reservation?;
        Ok(OpenWindowFlow { request, reservation, reused: false, registered: false })
    }

    /// The normalised request the native window is built from.
    pub fn request(&self) -> (r: &NormalizedOpenWindowRequest)
        ensures
            *r == self.request_view(),
    {
        &self.request
    }

    /// Records whether the native window was an existing one, reused.
    pub fn window_built(&mut self, reused: bool)
        ensures
            final(self).is_reused() == reused,
            final(self).label_view() == old(self).label_view(),
            final(self).request_view() == old(self).request_view(),
            final(self).is_registered() == old(self).is_registered(),
            final(self).is_committed() == old(self).is_committed(),
            old(self).wf() ==> final(self).wf(),
    {
        self.reused = reused;
    }

    /// Registers the window under its reserved label, with the window's own
    /// title where the request gives none, and commits the reservation. On
    /// success, returns the descriptor registered.
    pub fn register(&mut self, registry: &mut WindowRegistry, window_title: Option<String>) -> (r: Result<
        WindowDescriptor,
        String,
    >)
        requires
            old(self).wf(),
            old(registry).wf(),
        ensures
            final(self).wf(),
            final(registry).wf(),
            final(self).label_view() == old(self).label_view(),
            final(self).request_view() == old(self).request_view(),
            final(self).is_reused() == old(self).is_reused(),
            final(registry).closing() == old(registry).closing(),
            final(registry).store() == old(registry).store(),
            match r {
                Ok(d) => {
                    let req = old(self).request_view();
                    &&& d@ == (DescriptorView {
                        label: req.label@,
                        url: req.url@,
                        parent: req.parent.deep_view(),
                        title: match req.title {
                            Some(t) => Some(t@),
                            None => window_title.deep_view(),
                        },
                        geometry: req.geometry,
                    })
                    &&& old(registry).reserved().contains(d@.label)
                    &&& final(registry).reserved() == old(registry).reserved().remove(d@.label)
                    &&& final(registry).windows() == old(registry).windows().insert(d@.label, d@)
                    &&& final(self).is_registered()
                    &&& final(self).is_committed()
                },
                Err(e) => {
                    &&& !old(registry).reserved().contains(old(self).label_view())
                    &&& e@ == error_text(WindowSystemErrorKind::WindowReservationNotFound, "window reservation not found"@)
                    &&& final(registry).reserved() == old(registry).reserved()
                    &&& final(registry).windows() == old(registry).windows()
                    &&& final(self).is_registered() == old(self).is_registered()
                    &&& final(self).is_committed() == old(self).is_committed()
                },
            },
    {
        let descriptor = open_window_descriptor(&self.request, window_title);
        let registered = descriptor.duplicate();
        registry.insert_reserved(descriptor)?;
        self.reservation.commit();
        self.registered = true;
        Ok(registered)
    }

    /// Undoes what the registry holds of a failed open: the registration,
    /// if it was made, or else the reservation. Returns whether the native
    /// window is to be destroyed: only one this open created.
    pub fn abort(self, registry: &mut WindowRegistry) -> (destroy: bool)
        requires
            self.wf(),
            old(registry).wf(),
        ensures
            final(registry).wf(),
            final(registry).closing() == old(registry).closing(),
            final(registry).store() == old(registry).store(),
            final(registry).windows() == if self.is_registered() {
                old(registry).windows().remove(self.label_view())
            } else {
                old(registry).windows()
            },
            final(registry).reserved() == if self.is_committed() {
                old(registry).reserved()
            } else {
                old(registry).reserved().remove(self.label_view())
            },
            destroy == !self.is_reused(),
    {
        if self.registered {
            registry.remove(self.request.label.as_str());
        }
        registry.end_reservation(self.reservation);
        !self.reused
    }
}

/// An open that fails before registration leaves neither a reservation nor
/// a window behind: `start` reserves the label, `abort` gives it back.
pub proof fn lemma_abort_before_register_undoes_start(
    before: WindowRegistry,
    started: WindowRegistry,
    aborted: WindowRegistry,
    label: Seq<char>,
    parent: Option<Seq<char>>,
)
    requires
        before.reserve_error(label, parent) is None,
        started.reserved() == before.reserved().insert(label),
        started.windows() == before.windows(),
        aborted.reserved() == started.reserved().remove(label),
        aborted.windows() == started.windows(),
    ensures
        aborted.reserved() == before.reserved(),
        aborted.windows() == before.windows(),
{
    assert(aborted.reserved() =~= before.reserved());
}

/// An open that fails after registration leaves neither a reservation nor
/// a window behind: registering consumes the reservation, `abort` removes
/// the window.
pub proof fn lemma_abort_after_register_undoes_start(
    before: WindowRegistry,
    started: WindowRegistry,
    registered: WindowRegistry,
    aborted: WindowRegistry,
    label: Seq<char>,
    parent: Option<Seq<char>>,
    d: DescriptorView,
)
    requires
        before.reserve_error(label, parent) is None,
        started.reserved() == before.reserved().insert(label),
        started.windows() == before.windows(),
        d.label == label,
        registered.reserved() == started.reserved().remove(label),
        registered.windows() == started.windows().insert(label, d),
        aborted.reserved() == registered.reserved(),
        aborted.windows() == registered.windows().remove(label),
    ensures
        aborted.reserved() == before.reserved(),
        aborted.windows() == before.windows(),
{
    assert(aborted.reserved() =~= before.reserved());
    assert(aborted.windows() =~= before.windows());
}

/// Why a tracked window was not restored.
#[derive(Clone, Copy, Debug, PartialEq, Eq, Structural)]
pub enum RestoreSkipReason {
    MissingParent,
}

/// A tracked window that restore left out.
#[derive(Clone, Debug, PartialEq)]
pub struct RestoreSkippedWindow {
    pub label: String,
    pub parent: Option<String>,
    pub reason: RestoreSkipReason,
}

/// What `restore_windows` reports.
#[derive(Clone, Debug, PartialEq)]
pub struct RestoreWindowsResult {
    pub restored: Vec<WindowDescriptor>,
    pub already_alive: Vec<String>,
    pub skipped: Vec<RestoreSkippedWindow>,
}

/// The plan for restoring tracked windows: what to open and in which
/// order, what is already open, what cannot be placed, and the labels live
/// once the plan is carried out.
#[derive(Clone, Debug)]
pub struct RestorePlan {
    pub restore_order: Vec<WindowDescriptor>,
    pub already_alive: Vec<String>,
    pub already_alive_descriptors: Vec<WindowDescriptor>,
    pub skipped: Vec<RestoreSkippedWindow>,
    pub live_labels: Vec<String>,
}

/// A plan as plain values.
pub struct PlanView {
    pub restored: Seq<DescriptorView>,
    pub alive: Seq<DescriptorView>,
    pub skipped: Seq<DescriptorView>,
    pub live: Set<Seq<char>>,
}

/// One pass over `pending`, in order: a window whose label is live is
/// already alive; one whose parent is not live yet waits (in `skipped`);
/// any other is restored and its label becomes live.
pub open spec fn restore_pass(pending: Seq<DescriptorView>, live: Set<Seq<char>>) -> PlanView
    decreases pending.len(),
{
    if pending.len() == 0 {
        PlanView { restored: Seq::empty(), alive: Seq::empty(), skipped: Seq::empty(), live }
    } else {
        let before = restore_pass(pending.drop_last(), live);
        let d = pending.last();
        if before.live.contains(d.label) {
            PlanView { alive: before.alive.push(d), ..before }
        } else if d.parent is Some && !before.live.contains(d.parent->0) {
            PlanView { skipped: before.skipped.push(d), ..before }
        } else {
            PlanView {
                restored: before.restored.push(d),
                live: before.live.insert(d.label),
                ..before
            }
        }
    }
}

pub proof fn lemma_restore_pass_len(pending: Seq<DescriptorView>, live: Set<Seq<char>>)
    ensures
        restore_pass(pending, live).restored.len() + restore_pass(pending, live).alive.len()
            + restore_pass(pending, live).skipped.len() == pending.len(),
    decreases pending.len(),
{
    if pending.len() > 0 {
        lemma_restore_pass_len(pending.drop_last(), live);
    }
}

/// Passes repeat over the waiting windows while a pass restores something;
/// the windows still waiting after a pass that restores nothing are skipped.
pub open spec fn restore_rounds(pending: Seq<DescriptorView>, live: Set<Seq<char>>) -> PlanView
    decreases pending.len(),
{
    if pending.len() == 0 {
        PlanView { restored: Seq::empty(), alive: Seq::empty(), skipped: Seq::empty(), live }
    } else {
        let pass = restore_pass(pending, live);
        if pass.restored.len() == 0 {
            pass
        } else {
            proof {
                lemma_restore_pass_len(pending, live);
            }
            let rest = restore_rounds(pass.skipped, pass.live);
            PlanView {
                restored: pass.restored + rest.restored,
                alive: pass.alive + rest.alive,
                skipped: rest.skipped,
                live: rest.live,
            }
        }
    }
}

/// The set of labels a list of strings holds.
pub open spec fn label_set(s: Seq<String>) -> Set<Seq<char>> {
    labels_of(s).to_set()
}

/// Whether `label` is one of `labels`.
pub fn contains_label(labels: &Vec<String>, label: &str) -> (r: bool)
    ensures
        r == label_set(labels@).contains(label@),
{
    let mut i: usize = 0;
    while i < labels.len()
        invariant
            i <= labels@.len(),
            forall|j: int| 0 <= j < i ==> labels@[j]@ != label@,
        decreases labels@.len() - i,
    {
        if compare_labels(labels[i].as_str(), label) == LabelOrder::Equal {
            assert(labels_of(labels@)[i as int] == label@);
            return true;
        }
        i = i + 1;
    }
    proof {
        if label_set(labels@).contains(label@) {
            let j = choose|j: int| 0 <= j < labels_of(labels@).len() && labels_of(labels@)[j] == label@;
            assert(labels@[j]@ == label@);
        }
    }
    false
}

/// `r` reports `w` as skipped for a missing parent.
pub open spec fn reports_skipped(r: RestoreSkippedWindow, w: DescriptorView) -> bool {
    &&& r.label@ == w.label
    &&& r.parent.deep_view() == w.parent
    &&& r.reason == RestoreSkipReason::MissingParent
}

/// The windows of `waiting`, reported as skipped for a missing parent.
fn skipped_windows(waiting: &Vec<WindowDescriptor>) -> (r: Vec<RestoreSkippedWindow>)
    ensures
        r@.len() == waiting@.len(),
        forall|k: int| 0 <= k < r@.len() ==> reports_skipped(#[trigger] r@[k], views_of(waiting@)[k]),
{
    let mut skipped: Vec<RestoreSkippedWindow> = Vec::new();
    let mut j: usize = 0;
    while j < waiting.len()
        invariant
            j <= waiting@.len(),
            skipped@.len() == j,
            forall|k: int| 0 <= k < j ==> reports_skipped(#[trigger] skipped@[k], views_of(waiting@)[k]),
        decreases waiting@.len() - j,
    {
        let d = &waiting[j];
        let parent = match &d.parent {
            Some(p) => Some(p.clone()),
            None => None,
        };
        let ghost before = skipped@;
        let item = RestoreSkippedWindow { label: d.label.clone(), parent, reason: RestoreSkipReason::MissingParent };
        assert(reports_skipped(item, views_of(waiting@)[j as int]));
        skipped.push(item);
        assert forall|k: int| 0 <= k < j + 1 implies reports_skipped(#[trigger] skipped@[k], views_of(waiting@)[k]) by {
            if k < j {
                assert(skipped@[k] == before[k]);
            }
        }
        j = j + 1;
    }
    skipped
}

/// The plan for restoring `descriptors` when `live_labels` are open.
pub fn plan_restore_windows(descriptors: Vec<WindowDescriptor>, live_labels: Vec<String>) -> (r: RestorePlan)
    ensures
        views_of(r.restore_order@) == restore_rounds(views_of(descriptors@), label_set(live_labels@)).restored,
        views_of(r.already_alive_descriptors@) == restore_rounds(views_of(descriptors@), label_set(live_labels@)).alive,
        labels_of(r.already_alive@) == restore_rounds(views_of(descriptors@), label_set(live_labels@)).alive.map_values(
            |d: DescriptorView| d.label,
        ),
        r.skipped@.len() == restore_rounds(views_of(descriptors@), label_set(live_labels@)).skipped.len(),
        forall|i: int|
            0 <= i < r.skipped@.len() ==> {
                let w = restore_rounds(views_of(descriptors@), label_set(live_labels@)).skipped[i];
                &&& #[trigger] r.skipped@[i].label@ == w.label
                &&& r.skipped@[i].parent.deep_view() == w.parent
                &&& r.skipped@[i].reason == RestoreSkipReason::MissingParent
            },
        label_set(r.live_labels@) == restore_rounds(views_of(descriptors@), label_set(live_labels@)).live,
        forall|i: int|
            0 <= i < descriptors@.len() && label_set(live_labels@).contains(#[trigger] descriptors@[i]@.label)
                ==> views_of(r.already_alive_descriptors@).contains(descriptors@[i]@),
        forall|i: int| 0 <= i < r.skipped@.len() ==> !label_set(live_labels@).contains(#[trigger] r.skipped@[i].label@),
{
    let ghost given = descriptors@;
    let ghost start_pending = views_of(descriptors@);
    let ghost start_live = label_set(live_labels@);
    let ghost target = restore_rounds(views_of(descriptors@), label_set(live_labels@));
    let mut live = live_labels;
    let mut pending = descriptors;
    let mut restore_order: Vec<WindowDescriptor> = Vec::new();
    let mut already_alive: Vec<String> = Vec::new();
    let mut already_alive_descriptors: Vec<WindowDescriptor> = Vec::new();
    let mut skipped: Vec<RestoreSkippedWindow> = Vec::new();
    let mut finished = false;
    while !finished && pending.len() > 0
        invariant
            !finished ==> {
                let rest = restore_rounds(views_of(pending@), label_set(live@));
                &&& target.restored == views_of(restore_order@) + rest.restored
                &&& target.alive == views_of(already_alive_descriptors@) + rest.alive
                &&& target.skipped == rest.skipped
                &&& target.live == rest.live
                &&& skipped@.len() == 0
            },
            finished ==> {
                &&& target.restored == views_of(restore_order@)
                &&& target.alive == views_of(already_alive_descriptors@)
                &&& target.live == label_set(live@)
                &&& skipped@.len() == target.skipped.len()
                &&& forall|i: int|
                    0 <= i < skipped@.len() ==> {
                        let w = target.skipped[i];
                        &&& #[trigger] skipped@[i].label@ == w.label
                        &&& skipped@[i].parent.deep_view() == w.parent
                        &&& skipped@[i].reason == RestoreSkipReason::MissingParent
                    }
            },
            labels_of(already_alive@) == views_of(already_alive_descriptors@).map_values(|d: DescriptorView| d.label),
        decreases pending@.len() + if finished { 0int } else { 1int },
    {
        let ghost round_live = label_set(live@);
        let ghost round_pending = views_of(pending@);
        let ghost r0 = views_of(restore_order@);
        let ghost a0 = views_of(already_alive_descriptors@);
        let mut next_round: Vec<WindowDescriptor> = Vec::new();
        let mut progress = false;
        let mut i: usize = 0;
        while i < pending.len()
            invariant
                round_pending == views_of(pending@),
                i <= pending@.len(),
                ({
                    let pass = restore_pass(round_pending.take(i as int), round_live);
                    &&& views_of(restore_order@) == r0 + pass.restored
                    &&& views_of(already_alive_descriptors@) == a0 + pass.alive
                    &&& views_of(next_round@) == pass.skipped
                    &&& label_set(live@) == pass.live
                    &&& progress == (pass.restored.len() > 0)
                }),
                labels_of(already_alive@) == views_of(already_alive_descriptors@).map_values(|d: DescriptorView| d.label),
            decreases pending@.len() - i,
        {
            let ghost pass0 = restore_pass(round_pending.take(i as int), round_live);
            proof {
                assert(round_pending.take(i + 1).drop_last() =~= round_pending.take(i as int));
                assert(round_pending.take(i + 1).last() == pending@[i as int]@);
            }
            let descriptor = &pending[i];
            if contains_label(&live, descriptor.label.as_str()) {
                let ghost aa = already_alive@;
                let ghost ad = already_alive_descriptors@;
                already_alive.push(descriptor.label.clone());
                already_alive_descriptors.push(descriptor.duplicate());
                proof {
                    assert(views_of(already_alive_descriptors@) =~= views_of(ad).push(descriptor@));
                    assert(labels_of(already_alive@) =~= labels_of(aa).push(descriptor@.label));
                    assert(views_of(already_alive_descriptors@).map_values(|d: DescriptorView| d.label) =~=
                        views_of(ad).map_values(|d: DescriptorView| d.label).push(descriptor@.label));
                    assert(a0 + pass0.alive.push(descriptor@) =~= (a0 + pass0.alive).push(descriptor@));
                }
            } else {
                let waits = match &descriptor.parent {
                    Some(p) => !contains_label(&live, p.as_str()),
                    None => false,
                };
                if waits {
                    let ghost nr = next_round@;
                    next_round.push(descriptor.duplicate());
                    proof {
                        assert(views_of(next_round@) =~= views_of(nr).push(descriptor@));
                    }
                } else {
                    let ghost lv = live@;
                    let ghost ro = restore_order@;
                    live.push(descriptor.label.clone());
                    restore_order.push(descriptor.duplicate());
                    progress = true;
                    proof {
                        assert(labels_of(live@) =~= labels_of(lv).push(descriptor@.label));
                        assert(label_set(live@) =~= label_set(lv).insert(descriptor@.label)) by {
                            vstd::seq_lib::lemma_seq_contains_after_push(labels_of(lv), descriptor@.label, descriptor@.label);
                            assert forall|x: Seq<char>| label_set(live@).contains(x) <==> label_set(lv).insert(descriptor@.label).contains(x) by {
                                if label_set(live@).contains(x) {
                                    let j = choose|j: int| 0 <= j < labels_of(live@).len() && labels_of(live@)[j] == x;
                                    if j < labels_of(lv).len() {
                                        assert(labels_of(lv)[j] == x);
                                    }
                                }
                                if label_set(lv).contains(x) {
                                    let j = choose|j: int| 0 <= j < labels_of(lv).len() && labels_of(lv)[j] == x;
                                    assert(labels_of(live@)[j] == x);
                                }
                                if x == descriptor@.label {
                                    assert(labels_of(live@)[labels_of(lv).len() as int] == x);
                                }
                            }
                        }
                        assert(views_of(restore_order@) =~= views_of(ro).push(descriptor@));
                        assert(r0 + pass0.restored.push(descriptor@) =~= (r0 + pass0.restored).push(descriptor@));
                    }
                }
            }
            i = i + 1;
        }
        proof {
            assert(round_pending.take(pending@.len() as int) =~= round_pending);
            lemma_restore_pass_len(round_pending, round_live);
        }
        if !progress {
            skipped = skipped_windows(&next_round);
            finished = true;
            proof {
                assert(r0 + Seq::<DescriptorView>::empty() =~= r0);
            }
        } else {
            pending = next_round;
        }
    }
    proof {
        if !finished {
            assert(views_of(pending@) =~= Seq::<DescriptorView>::empty());
            assert(views_of(restore_order@) + Seq::<DescriptorView>::empty() =~= views_of(restore_order@));
            assert(views_of(already_alive_descriptors@) + Seq::<DescriptorView>::empty() =~= views_of(already_alive_descriptors@));
        }
        lemma_live_windows_are_already_alive(start_pending, start_live);
        assert forall|i: int|
            0 <= i < given.len() && start_live.contains(#[trigger] given[i]@.label)
                implies views_of(already_alive_descriptors@).contains(given[i]@) by {
            assert(start_pending[i] == given[i]@);
            assert(target.alive.contains(start_pending[i]));
        }
        assert forall|i: int| 0 <= i < skipped@.len() implies !start_live.contains(#[trigger] skipped@[i].label@) by {
            assert(skipped@[i].label@ == target.skipped[i].label);
        }
    }
    RestorePlan {
        restore_order,
        already_alive,
        already_alive_descriptors,
        skipped,
        live_labels: live,
    }
}


/// The labels that startup cleanup drops from the persisted state: those
/// of skipped windows, and those of already-alive windows whose parent is
/// not live.
pub open spec fn stale_labels(plan: RestorePlan) -> Set<Seq<char>> {
    Set::new(
        |l: Seq<char>|
            (exists|i: int| 0 <= i < plan.skipped@.len() && #[trigger] plan.skipped@[i].label@ == l) || (exists|i: int|
                0 <= i < plan.already_alive_descriptors@.len() && #[trigger] plan.already_alive_descriptors@[i].label@ == l
                    && plan.already_alive_descriptors@[i].parent is Some
                    && !label_set(plan.live_labels@).contains(plan.already_alive_descriptors@[i].parent->0@)),
    )
}

/// Appends `label` to `labels` unless it is there already.
fn push_label_once(labels: &mut Vec<String>, label: &String)
    ensures
        label_set(final(labels)@) == label_set(old(labels)@).insert(label@),
{
    if !contains_label(labels, label.as_str()) {
        let ghost l0 = labels@;
        labels.push(label.clone());
        proof {
            assert(labels_of(labels@) =~= labels_of(l0).push(label@));
            assert forall|x: Seq<char>| label_set(labels@).contains(x) <==> label_set(l0).insert(label@).contains(x) by {
                if label_set(labels@).contains(x) {
                    let j = choose|j: int| 0 <= j < labels_of(labels@).len() && labels_of(labels@)[j] == x;
                    if j < labels_of(l0).len() {
                        assert(labels_of(l0)[j] == x);
                    }
                }
                if label_set(l0).contains(x) {
                    let j = choose|j: int| 0 <= j < labels_of(l0).len() && labels_of(l0)[j] == x;
                    assert(labels_of(labels@)[j] == x);
                }
                if x == label@ {
                    assert(labels_of(labels@)[labels_of(l0).len() as int] == x);
                }
            }
            assert(label_set(labels@) =~= label_set(l0).insert(label@));
        }
    } else {
        assert(label_set(labels@) =~= label_set(labels@).insert(label@));
    }
}

/// The labels `stale_labels` describes, each once.
pub fn stale_restore_labels(plan: &RestorePlan) -> (r: Vec<String>)
    ensures
        label_set(r@) == stale_labels(*plan),
{
    let mut stale: Vec<String> = Vec::new();
    let mut i: usize = 0;
    while i < plan.skipped.len()
        invariant
            i <= plan.skipped@.len(),
            label_set(stale@) == Set::new(|l: Seq<char>| exists|k: int| 0 <= k < i && #[trigger] plan.skipped@[k].label@ == l),
        decreases plan.skipped@.len() - i,
    {
        let ghost before = label_set(stale@);
        push_label_once(&mut stale, &plan.skipped[i].label);
        proof {
            assert(label_set(stale@) =~= Set::new(|l: Seq<char>| exists|k: int| 0 <= k < i + 1 && #[trigger] plan.skipped@[k].label@ == l)) by {
                assert forall|l: Seq<char>| label_set(stale@).contains(l) <==> (exists|k: int| 0 <= k < i + 1 && #[trigger] plan.skipped@[k].label@ == l) by {
                    if l == plan.skipped@[i as int].label@ {
                    }
                }
            }
        }
        i = i + 1;
    }
    let ghost from_skipped = label_set(stale@);
    let mut j: usize = 0;
    while j < plan.already_alive_descriptors.len()
        invariant
            i == plan.skipped@.len(),
            j <= plan.already_alive_descriptors@.len(),
            from_skipped == Set::new(|l: Seq<char>| exists|k: int| 0 <= k < plan.skipped@.len() && #[trigger] plan.skipped@[k].label@ == l),
            label_set(stale@) == from_skipped.union(Set::new(|l: Seq<char>| exists|k: int|
                0 <= k < j && #[trigger] plan.already_alive_descriptors@[k].label@ == l
                    && plan.already_alive_descriptors@[k].parent is Some
                    && !label_set(plan.live_labels@).contains(plan.already_alive_descriptors@[k].parent->0@))),
        decreases plan.already_alive_descriptors@.len() - j,
    {
        let window = &plan.already_alive_descriptors[j];
        let orphan = match &window.parent {
            Some(parent) => !contains_label(&plan.live_labels, parent.as_str()),
            None => false,
        };
        let ghost before = label_set(stale@);
        if orphan {
            push_label_once(&mut stale, &window.label);
        }
        proof {
            let newer = Set::new(|l: Seq<char>| exists|k: int|
                0 <= k < j + 1 && #[trigger] plan.already_alive_descriptors@[k].label@ == l
                    && plan.already_alive_descriptors@[k].parent is Some
                    && !label_set(plan.live_labels@).contains(plan.already_alive_descriptors@[k].parent->0@));
            assert(label_set(stale@) =~= from_skipped.union(newer)) by {
                assert forall|l: Seq<char>| label_set(stale@).contains(l) <==> from_skipped.union(newer).contains(l) by {
                    if l == plan.already_alive_descriptors@[j as int].label@ {
                    }
                }
            }
        }
        j = j + 1;
    }
    assert(label_set(stale@) =~= stale_labels(*plan));
    stale
}

/// Drops the persisted state of the stale labels of `plan`. Returns whether
/// the snapshot is to be written, which is whenever there is a stale label.
pub fn cleanup_stale_restore_windows(registry: &mut WindowRegistry, plan: &RestorePlan) -> (needs_flush: bool)
    requires
        old(registry).wf(),
    ensures
        final(registry).wf(),
        final(registry).windows() == old(registry).windows(),
        final(registry).reserved() == old(registry).reserved(),
        final(registry).closing() == old(registry).closing(),
        final(registry).store().tracked_map() == old(registry).store().tracked_map().remove_keys(stale_labels(*plan)),
        final(registry).store().geometry_map() == old(registry).store().geometry_map().remove_keys(stale_labels(*plan)),
        needs_flush == (stale_labels(*plan) != Set::<Seq<char>>::empty()),
{
    let stale = stale_restore_labels(plan);
    if stale.len() == 0 {
        proof {
            assert(labels_of(stale@) =~= Seq::<Seq<char>>::empty());
            assert(stale_labels(*plan) =~= Set::<Seq<char>>::empty());
            assert(registry.store().tracked_map().remove_keys(Set::<Seq<char>>::empty()) =~= registry.store().tracked_map());
            assert(registry.store().geometry_map().remove_keys(Set::<Seq<char>>::empty()) =~= registry.store().geometry_map());
        }
        return false;
    }
    let mut i: usize = 0;
    while i < stale.len()
        invariant
            i <= stale@.len(),
            registry.wf(),
            registry.windows() == old(registry).windows(),
            registry.reserved() == old(registry).reserved(),
            registry.closing() == old(registry).closing(),
            registry.store().tracked_map() == old(registry).store().tracked_map().remove_keys(label_set(stale@.take(i as int))),
            registry.store().geometry_map() == old(registry).store().geometry_map().remove_keys(label_set(stale@.take(i as int))),
        decreases stale@.len() - i,
    {
        let ghost before = label_set(stale@.take(i as int));
        registry.purge_persisted_window(stale[i].as_str());
        proof {
            assert(stale@.take(i + 1) =~= stale@.take(i as int).push(stale@[i as int]));
            assert(labels_of(stale@.take(i + 1)) =~= labels_of(stale@.take(i as int)).push(stale@[i as int]@));
            assert(label_set(stale@.take(i + 1)) =~= before.insert(stale@[i as int]@)) by {
                Seq::<Seq<char>>::lemma_to_set_insert_commutes(labels_of(stale@.take(i as int)), stale@[i as int]@);
                assert(labels_of(stale@.take(i as int)).push(stale@[i as int]@) =~= labels_of(stale@.take(i as int))
                    + seq![stale@[i as int]@]);
            }
            assert(registry.store().tracked_map() =~= old(registry).store().tracked_map().remove_keys(label_set(stale@.take(i + 1))));
            assert(registry.store().geometry_map() =~= old(registry).store().geometry_map().remove_keys(label_set(stale@.take(i + 1))));
        }
        i = i + 1;
    }
    proof {
        assert(stale@.take(stale@.len() as int) =~= stale@);
        assert(labels_of(stale@).len() > 0);
        assert(label_set(stale@).contains(labels_of(stale@)[0]));
    }
    true
}


/// The labels of a sequence of descriptors.
pub open spec fn labels_in(s: Seq<DescriptorView>) -> Set<Seq<char>> {
    Set::new(|l: Seq<char>| exists|i: int| 0 <= i < s.len() && #[trigger] s[i].label == l)
}

/// Every restored window has its parent live before it: live at the start
/// or restored earlier in the order.
pub open spec fn parents_first(restored: Seq<DescriptorView>, live: Set<Seq<char>>) -> bool {
    forall|i: int|
        0 <= i < restored.len() && #[trigger] restored[i].parent is Some ==> live.contains(restored[i].parent->0)
            || exists|j: int| 0 <= j < i && #[trigger] restored[j].label == restored[i].parent->0
}

/// No restored window was live at the start, and none is restored twice.
pub open spec fn restores_fresh_labels(restored: Seq<DescriptorView>, live: Set<Seq<char>>) -> bool {
    &&& forall|i: int| 0 <= i < restored.len() ==> !live.contains(#[trigger] restored[i].label)
    &&& forall|i: int, j: int| 0 <= i < j < restored.len() ==> #[trigger] restored[i].label != #[trigger] restored[j].label
}

proof fn lemma_restore_pass_facts(pending: Seq<DescriptorView>, live: Set<Seq<char>>)
    ensures
        ({
            let p = restore_pass(pending, live);
            &&& pending.to_multiset() == p.restored.to_multiset().add(p.alive.to_multiset()).add(p.skipped.to_multiset())
            &&& p.live == live.union(labels_in(p.restored))
            &&& parents_first(p.restored, live)
            &&& restores_fresh_labels(p.restored, live)
            &&& forall|i: int| 0 <= i < p.alive.len() ==> p.live.contains(#[trigger] p.alive[i].label)
            &&& p.restored.len() == 0 ==> forall|i: int|
                0 <= i < p.skipped.len() ==> #[trigger] p.skipped[i].parent is Some && !live.contains(p.skipped[i].parent->0)
        }),
    decreases pending.len(),
{
    broadcast use vstd::seq_lib::group_to_multiset_ensures;
    let p = restore_pass(pending, live);
    if pending.len() == 0 {
        assert(labels_in(p.restored) =~= Set::<Seq<char>>::empty());
        assert(p.live =~= live.union(labels_in(p.restored)));
        assert(pending.to_multiset() =~= p.restored.to_multiset().add(p.alive.to_multiset()).add(p.skipped.to_multiset()));
    } else {
        let q = restore_pass(pending.drop_last(), live);
        lemma_restore_pass_facts(pending.drop_last(), live);
        let d = pending.last();
        assert(pending =~= pending.drop_last().push(d));
        if q.live.contains(d.label) {
            assert(p.alive =~= q.alive.push(d));
            assert(pending.to_multiset() =~= p.restored.to_multiset().add(p.alive.to_multiset()).add(p.skipped.to_multiset()));
        } else if d.parent is Some && !q.live.contains(d.parent->0) {
            assert(p.skipped =~= q.skipped.push(d));
            assert(pending.to_multiset() =~= p.restored.to_multiset().add(p.alive.to_multiset()).add(p.skipped.to_multiset()));
        } else {
            assert(p.restored =~= q.restored.push(d));
            assert(pending.to_multiset() =~= p.restored.to_multiset().add(p.alive.to_multiset()).add(p.skipped.to_multiset()));
            assert(labels_in(p.restored) =~= labels_in(q.restored).insert(d.label)) by {
                assert forall|l: Seq<char>| labels_in(p.restored).contains(l) <==> labels_in(q.restored).insert(d.label).contains(l) by {
                    if labels_in(p.restored).contains(l) {
                        let i = choose|i: int| 0 <= i < p.restored.len() && #[trigger] p.restored[i].label == l;
                        if i < q.restored.len() {
                            assert(q.restored[i].label == l);
                        }
                    }
                    if labels_in(q.restored).contains(l) {
                        let i = choose|i: int| 0 <= i < q.restored.len() && #[trigger] q.restored[i].label == l;
                        assert(p.restored[i].label == l);
                    }
                    if l == d.label {
                        assert(p.restored[q.restored.len() as int].label == l);
                    }
                }
            }
            assert(p.live =~= live.union(labels_in(p.restored)));
            assert forall|i: int|
                0 <= i < p.restored.len() && #[trigger] p.restored[i].parent is Some implies live.contains(p.restored[i].parent->0)
                || exists|j: int| 0 <= j < i && #[trigger] p.restored[j].label == p.restored[i].parent->0 by {
                if i < q.restored.len() {
                    assert(p.restored[i] == q.restored[i]);
                    if !live.contains(q.restored[i].parent->0) {
                        let j = choose|j: int| 0 <= j < i && #[trigger] q.restored[j].label == q.restored[i].parent->0;
                        assert(p.restored[j] == q.restored[j]);
                    }
                } else {
                    let par = d.parent->0;
                    assert(q.live.contains(par));
                    if !live.contains(par) {
                        assert(labels_in(q.restored).contains(par));
                        let j = choose|j: int| 0 <= j < q.restored.len() && #[trigger] q.restored[j].label == par;
                        assert(p.restored[j] == q.restored[j]);
                    }
                }
            }
            assert forall|i: int, j: int| 0 <= i < j < p.restored.len() implies #[trigger] p.restored[i].label != #[trigger] p.restored[j].label by {
                if j == q.restored.len() {
                    assert(p.restored[i] == q.restored[i]);
                    assert(labels_in(q.restored).contains(q.restored[i].label));
                } else {
                    assert(p.restored[i] == q.restored[i]);
                    assert(p.restored[j] == q.restored[j]);
                }
            }
            assert forall|i: int| 0 <= i < p.restored.len() implies !live.contains(#[trigger] p.restored[i].label) by {
                if i < q.restored.len() {
                    assert(p.restored[i] == q.restored[i]);
                }
            }
        }
    }
}

/// In one pass, a window whose label is live at the start is already
/// alive, and no window skipped to wait for its parent has a label that
/// was live at the start.
proof fn lemma_pass_keeps_live_windows_alive(pending: Seq<DescriptorView>, live: Set<Seq<char>>)
    ensures
        ({
            let p = restore_pass(pending, live);
            &&& forall|i: int| 0 <= i < pending.len() && live.contains(#[trigger] pending[i].label) ==> p.alive.contains(pending[i])
            &&& forall|i: int| 0 <= i < p.skipped.len() ==> !live.contains(#[trigger] p.skipped[i].label)
        }),
    decreases pending.len(),
{
    if pending.len() > 0 {
        let p = restore_pass(pending, live);
        let rest = pending.drop_last();
        let q = restore_pass(rest, live);
        lemma_pass_keeps_live_windows_alive(rest, live);
        lemma_restore_pass_facts(rest, live);
        let d = pending.last();
        assert(q.live.contains(d.label) || !live.contains(d.label));
        assert forall|i: int| 0 <= i < pending.len() && live.contains(#[trigger] pending[i].label) implies p.alive.contains(pending[i]) by {
            if i < rest.len() {
                assert(rest[i] == pending[i]);
                assert(q.alive.contains(pending[i]));
                let j = choose|j: int| 0 <= j < q.alive.len() && q.alive[j] == pending[i];
                assert(p.alive[j] == pending[i]);
            } else {
                assert(p.alive[p.alive.len() - 1] == d);
            }
        }
        assert forall|i: int| 0 <= i < p.skipped.len() implies !live.contains(#[trigger] p.skipped[i].label) by {
            if i < q.skipped.len() {
                assert(p.skipped[i] == q.skipped[i]);
            }
        }
    }
}

/// A tracked window that is already open when restore starts is reported
/// already alive, never restored again nor skipped, whatever its parent:
/// every window whose label is live at the start is among the already-alive
/// ones, and no skipped window has a label that was live at the start.
pub proof fn lemma_live_windows_are_already_alive(pending: Seq<DescriptorView>, live: Set<Seq<char>>)
    ensures
        ({
            let p = restore_rounds(pending, live);
            &&& forall|i: int| 0 <= i < pending.len() && live.contains(#[trigger] pending[i].label) ==> p.alive.contains(pending[i])
            &&& forall|i: int| 0 <= i < p.skipped.len() ==> !live.contains(#[trigger] p.skipped[i].label)
        }),
    decreases pending.len(),
{
    if pending.len() == 0 {
        return;
    }
    let p = restore_rounds(pending, live);
    let pass = restore_pass(pending, live);
    lemma_pass_keeps_live_windows_alive(pending, live);
    if pass.restored.len() == 0 {
        return;
    }
    lemma_restore_pass_len(pending, live);
    lemma_restore_pass_facts(pending, live);
    let rest = restore_rounds(pass.skipped, pass.live);
    lemma_live_windows_are_already_alive(pass.skipped, pass.live);
    assert forall|i: int| 0 <= i < pending.len() && live.contains(#[trigger] pending[i].label) implies p.alive.contains(pending[i]) by {
        let j = choose|j: int| 0 <= j < pass.alive.len() && pass.alive[j] == pending[i];
        assert(p.alive[j] == pending[i]);
    }
    assert forall|i: int| 0 <= i < p.skipped.len() implies !live.contains(#[trigger] p.skipped[i].label) by {
        assert(p.skipped[i] == rest.skipped[i]);
        assert(!pass.live.contains(rest.skipped[i].label));
    }
}

/// What a restore plan promises, for all tracked windows and live labels:
/// every tracked window lands in exactly one of restored, already alive or
/// skipped; restore is parent-first; no live label is restored again and
/// none twice; the live labels afterwards are those before plus the
/// restored ones; an already-alive window is live; a skipped window has a
/// parent that is not live.
pub proof fn lemma_restore_plan_laws(pending: Seq<DescriptorView>, live: Set<Seq<char>>)
    ensures
        ({
            let p = restore_rounds(pending, live);
            &&& pending.to_multiset() == p.restored.to_multiset().add(p.alive.to_multiset()).add(p.skipped.to_multiset())
            &&& p.live == live.union(labels_in(p.restored))
            &&& parents_first(p.restored, live)
            &&& restores_fresh_labels(p.restored, live)
            &&& forall|i: int| 0 <= i < p.alive.len() ==> p.live.contains(#[trigger] p.alive[i].label)
            &&& forall|i: int|
                0 <= i < p.skipped.len() ==> #[trigger] p.skipped[i].parent is Some && !p.live.contains(p.skipped[i].parent->0)
        }),
    decreases pending.len(),
{
    broadcast use vstd::seq_lib::group_to_multiset_ensures;
    let p = restore_rounds(pending, live);
    if pending.len() == 0 {
        assert(labels_in(p.restored) =~= Set::<Seq<char>>::empty());
        assert(p.live =~= live.union(labels_in(p.restored)));
        assert(pending.to_multiset() =~= p.restored.to_multiset().add(p.alive.to_multiset()).add(p.skipped.to_multiset()));
        return;
    }
    let pass = restore_pass(pending, live);
    lemma_restore_pass_facts(pending, live);
    if pass.restored.len() == 0 {
        assert(labels_in(pass.restored) =~= Set::<Seq<char>>::empty());
        assert(pass.live =~= live);
        return;
    }
    lemma_restore_pass_len(pending, live);
    let rest = restore_rounds(pass.skipped, pass.live);
    lemma_restore_plan_laws(pass.skipped, pass.live);
    vstd::seq_lib::lemma_multiset_commutative(pass.restored, rest.restored);
    vstd::seq_lib::lemma_multiset_commutative(pass.alive, rest.alive);
    assert(pending.to_multiset() =~= p.restored.to_multiset().add(p.alive.to_multiset()).add(p.skipped.to_multiset()));
    let n = pass.restored.len();
    assert forall|i: int| 0 <= i < p.restored.len() implies #[trigger] p.restored[i] == if i < n {
        pass.restored[i]
    } else {
        rest.restored[i - n]
    } by {}
    assert(labels_in(p.restored) =~= labels_in(pass.restored).union(labels_in(rest.restored))) by {
        assert forall|l: Seq<char>| labels_in(p.restored).contains(l) <==> labels_in(pass.restored).union(labels_in(rest.restored)).contains(l) by {
            if labels_in(p.restored).contains(l) {
                let i = choose|i: int| 0 <= i < p.restored.len() && #[trigger] p.restored[i].label == l;
                if i < n {
                    assert(pass.restored[i].label == l);
                } else {
                    assert(rest.restored[i - n].label == l);
                }
            }
            if labels_in(pass.restored).contains(l) {
                let i = choose|i: int| 0 <= i < pass.restored.len() && #[trigger] pass.restored[i].label == l;
                assert(p.restored[i].label == l);
            }
            if labels_in(rest.restored).contains(l) {
                let i = choose|i: int| 0 <= i < rest.restored.len() && #[trigger] rest.restored[i].label == l;
                assert(p.restored[i + n].label == l);
            }
        }
    }
    assert(p.live =~= live.union(labels_in(p.restored)));
    assert forall|i: int|
        0 <= i < p.restored.len() && #[trigger] p.restored[i].parent is Some implies live.contains(p.restored[i].parent->0)
        || exists|j: int| 0 <= j < i && #[trigger] p.restored[j].label == p.restored[i].parent->0 by {
        if i < n {
            if !live.contains(pass.restored[i].parent->0) {
                let j = choose|j: int| 0 <= j < i && #[trigger] pass.restored[j].label == pass.restored[i].parent->0;
                assert(p.restored[j] == pass.restored[j]);
            }
        } else {
            let k = i - n;
            let par = rest.restored[k].parent->0;
            if pass.live.contains(par) {
                if !live.contains(par) {
                    assert(labels_in(pass.restored).contains(par));
                    let j = choose|j: int| 0 <= j < pass.restored.len() && #[trigger] pass.restored[j].label == par;
                    assert(p.restored[j] == pass.restored[j]);
                }
            } else {
                let j = choose|j: int| 0 <= j < k && #[trigger] rest.restored[j].label == par;
                assert(p.restored[j + n] == rest.restored[j]);
            }
        }
    }
    assert forall|i: int| 0 <= i < p.restored.len() implies !live.contains(#[trigger] p.restored[i].label) by {
        if i >= n {
            assert(!pass.live.contains(rest.restored[i - n].label));
        }
    }
    assert forall|i: int, j: int| 0 <= i < j < p.restored.len() implies #[trigger] p.restored[i].label != #[trigger] p.restored[j].label by {
        if j >= n && i < n {
            assert(labels_in(pass.restored).contains(pass.restored[i].label));
            assert(!pass.live.contains(rest.restored[j - n].label));
        }
    }
    assert forall|i: int| 0 <= i < p.alive.len() implies p.live.contains(#[trigger] p.alive[i].label) by {
        if i < pass.alive.len() {
            assert(p.alive[i] == pass.alive[i]);
            assert(pass.live.contains(pass.alive[i].label));
        } else {
            assert(p.alive[i] == rest.alive[i - pass.alive.len()]);
        }
    }
}

} // verus!
