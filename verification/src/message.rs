//! Brokered messages between windows: envelopes, their recipients, and the
//! check that a direct message has a live target.

use vstd::prelude::*;
use serde_json::Value;
use std::time::{SystemTime, SystemTimeError};
use std::time::Duration;
use crate::commands::{contains_label, label_set};
use crate::error::{WindowSystemErrorKind, error_text, window_not_found_error};
use crate::registry::{WindowRegistry, labels_of};

verus! {

#[verifier::external_type_specification]
#[verifier::external_body]
pub struct ExJsonValue(Value);

#[verifier::external_type_specification]
#[verifier::external_body]
pub struct ExSystemTime(SystemTime);

#[verifier::external_type_specification]
#[verifier::external_body]
pub struct ExSystemTimeError(SystemTimeError);

/// Whether a message goes to one window or to all.
#[derive(Clone, Copy, Debug, PartialEq, Eq, Structural)]
pub enum WindowMessageScope {
    Direct,
    Broadcast,
}

/// The role of a message in an exchange.
#[derive(Clone, Copy, Debug, PartialEq, Eq, Structural)]
pub enum WindowMessageKind {
    Event,
    Request,
    Response,
}

/// A message as delivered.
#[derive(Debug)]
pub struct WindowMessageEnvelope {
    pub from: String,
    pub to: Option<String>,
    pub scope: WindowMessageScope,
    pub kind: WindowMessageKind,
    pub topic: String,
    pub correlation_id: Option<String>,
    pub payload: Value,
    pub timestamp_ms: u64,
}

/// A message for one window.
#[derive(Debug)]
pub struct SendWindowMessageRequest {
    pub to: String,
    pub kind: WindowMessageKind,
    pub topic: String,
    pub correlation_id: Option<String>,
    pub payload: Value,
}

/// A message for every live window.
#[derive(Debug)]
pub struct BroadcastWindowMessageRequest {
    pub kind: WindowMessageKind,
    pub topic: String,
    pub correlation_id: Option<String>,
    pub payload: Value,
}

/// The envelope sent and the labels it went to.
#[derive(Debug)]
pub struct WindowMessageDispatchResult {
    pub envelope: WindowMessageEnvelope,
    pub delivered_to: Vec<String>,
}

/// `std::time::SystemTime::now`: the current time of the system clock.
#[verifier::external_body]
fn system_time_now() -> SystemTime {
    SystemTime::now()
}

/// `SystemTime::duration_since` with `UNIX_EPOCH`: the time elapsed since
/// the Unix epoch, or an error for a time before it.
#[verifier::external_body]
fn duration_since_unix_epoch(time: &SystemTime) -> Result<Duration, SystemTimeError> {
    time.duration_since(std::time::UNIX_EPOCH)
}

/// `Duration::as_millis`: the whole milliseconds of a duration.
#[verifier::external_body]
fn duration_as_millis(duration: &Duration) -> u128 {
    duration.as_millis()
}

/// The timestamp for a clock reading `elapsed_ms` milliseconds after the
/// Unix epoch: the count truncated to 64 bits. A reading before the epoch
/// (no count) gives 0.
pub fn timestamp_from_elapsed(elapsed_ms: Option<u128>) -> (r: u64)
    ensures
        r as int == match elapsed_ms {
            Some(m) => m as int % 0x1_0000_0000_0000_0000,
            None => 0,
        },
{
    match elapsed_ms {
        Some(millis) => {
            assert((millis as u64) as u128 == millis % 0x1_0000_0000_0000_0000) by (bit_vector);
            #[verifier::truncate]
            (millis as u64)
        },
        None => 0,
    }
}

/// Milliseconds since the Unix epoch by the system clock, truncated to 64
/// bits, or 0 where the clock reads before the epoch, as
/// `timestamp_from_elapsed` maps the reading. Nothing is promised of the
/// value: it is read from the clock.
pub fn current_timestamp_ms() -> u64 {
    let now = system_time_now();
    let elapsed = match duration_since_unix_epoch(&now) {
        Ok(elapsed) => Some(duration_as_millis(&elapsed)),
        Err(_) => None,
    };
    timestamp_from_elapsed(elapsed)
}

/// An envelope with the given fields, stamped with the current time.
pub fn build_window_message_envelope(
    from: String,
    to: Option<String>,
    scope: WindowMessageScope,
    kind: WindowMessageKind,
    topic: String,
    correlation_id: Option<String>,
    payload: Value,
) -> (r: WindowMessageEnvelope)
    ensures
        r.from == from,
        r.to == to,
        r.scope == scope,
        r.kind == kind,
        r.topic == topic,
        r.correlation_id == correlation_id,
        r.payload == payload,
{
    WindowMessageEnvelope {
        from,
        to,
        scope,
        kind,
        topic,
        correlation_id,
        payload,
        timestamp_ms: current_timestamp_ms(),
    }
}

/// The labels of live windows: those the application reports, then those
/// the registry holds, each once.
pub fn current_live_window_labels(webview_labels: Vec<String>, registry: &WindowRegistry) -> (r: Vec<String>)
    requires
        registry.wf(),
    ensures
        label_set(r@) == label_set(webview_labels@).union(registry.windows().dom()),
        labels_of(r@).no_duplicates(),
{
    let mut live: Vec<String> = Vec::new();
    let mut i: usize = 0;
    while i < webview_labels.len()
        invariant
            i <= webview_labels@.len(),
            label_set(live@) == labels_of(webview_labels@.take(i as int)).to_set(),
            labels_of(live@).no_duplicates(),
        decreases webview_labels@.len() - i,
    {
        let ghost before = live@;
        push_distinct(&mut live, &webview_labels[i]);
        proof {
            assert(labels_of(webview_labels@.take(i + 1)) =~= labels_of(webview_labels@.take(i as int)) + seq![webview_labels@[i as int]@]);
            Seq::<Seq<char>>::lemma_to_set_insert_commutes(labels_of(webview_labels@.take(i as int)), webview_labels@[i as int]@);
        }
        i = i + 1;
    }
    assert(webview_labels@.take(webview_labels@.len() as int) =~= webview_labels@);
    let registered = registry.list();
    let ghost from_app = label_set(live@);
    let mut j: usize = 0;
    while j < registered.len()
        invariant
            j <= registered@.len(),
            from_app == label_set(webview_labels@),
            label_set(live@) == from_app.union(Set::new(|l: Seq<char>| exists|k: int| 0 <= k < j && #[trigger] registered@[k].label@ == l)),
            labels_of(live@).no_duplicates(),
        decreases registered@.len() - j,
    {
        push_distinct(&mut live, &registered[j].label);
        proof {
            let newer = Set::new(|l: Seq<char>| exists|k: int| 0 <= k < j + 1 && #[trigger] registered@[k].label@ == l);
            assert(label_set(live@) =~= from_app.union(newer)) by {
                assert forall|l: Seq<char>| label_set(live@).contains(l) <==> from_app.union(newer).contains(l) by {
                    if l == registered@[j as int].label@ {
                    }
                }
            }
        }
        j = j + 1;
    }
    proof {
        let listed = Set::new(|l: Seq<char>| exists|k: int| 0 <= k < registered@.len() && #[trigger] registered@[k].label@ == l);
        assert(listed =~= registry.windows().dom()) by {
            assert forall|l: Seq<char>| listed.contains(l) <==> registry.windows().dom().contains(l) by {
                if listed.contains(l) {
                    let k = choose|k: int| 0 <= k < registered@.len() && #[trigger] registered@[k].label@ == l;
                    assert(crate::descriptor::views_of(registered@)[k].label == l);
                }
                if registry.windows().dom().contains(l) {
                    let k = choose|k: int| 0 <= k < crate::descriptor::views_of(registered@).len() && #[trigger] crate::descriptor::views_of(registered@)[k].label == l;
                    assert(registered@[k].label@ == l);
                }
            }
        }
    }
    live
}

/// Appends `label` unless it is there already.
fn push_distinct(labels: &mut Vec<String>, label: &String)
    requires
        labels_of(old(labels)@).no_duplicates(),
    ensures
        labels_of(final(labels)@).no_duplicates(),
        label_set(final(labels)@) == label_set(old(labels)@).insert(label@),
{
    if contains_label(labels, label.as_str()) {
        assert(label_set(labels@) =~= label_set(labels@).insert(label@));
        return;
    }
    let ghost l0 = labels@;
    labels.push(label.clone());
    proof {
        assert(labels_of(labels@) =~= labels_of(l0) + seq![label@]);
        Seq::<Seq<char>>::lemma_to_set_insert_commutes(labels_of(l0), label@);
        assert forall|a: int, b: int| 0 <= a < b < labels_of(labels@).len() implies labels_of(labels@)[a] != labels_of(labels@)[b] by {
            if b == labels_of(l0).len() {
                assert(label_set(l0).contains(labels_of(l0)[a]));
            }
        }
    }
}

/// Addresses a message to one live window. A target that is not live is
/// refused with `window-not-found`.
pub fn send_window_message(sender: String, live_labels: &Vec<String>, request: SendWindowMessageRequest) -> (r: Result<
    WindowMessageDispatchResult,
    String,
>)
    ensures
        match r {
            Ok(result) => {
                &&& label_set(live_labels@).contains(request.to@)
                &&& result.envelope.from == sender
                &&& result.envelope.to.deep_view() == Some(request.to@)
                &&& result.envelope.scope == WindowMessageScope::Direct
                &&& result.envelope.kind == request.kind
                &&& result.envelope.topic == request.topic
                &&& result.envelope.correlation_id == request.correlation_id
                &&& result.envelope.payload == request.payload
                &&& labels_of(result.delivered_to@) == seq![request.to@]
            },
            Err(e) => {
                &&& !label_set(live_labels@).contains(request.to@)
                &&& e@ == error_text(WindowSystemErrorKind::WindowNotFound, "window not found: "@ + request.to@)
            },
        },
{
    if !contains_label(live_labels, request.to.as_str()) {
        return Err(window_not_found_error(request.to.as_str()));
    }
    let SendWindowMessageRequest { to, kind, topic, correlation_id, payload } = request;
    let envelope = build_window_message_envelope(
        sender,
        Some(to.clone()),
        WindowMessageScope::Direct,
        kind,
        topic,
        correlation_id,
        payload,
    );
    let mut delivered_to: Vec<String> = Vec::new();
    delivered_to.push(to);
    assert(labels_of(delivered_to@) =~= seq![request.to@]);
    Ok(WindowMessageDispatchResult { envelope, delivered_to })
}

/// Addresses a message to every live window.
pub fn broadcast_window_message(sender: String, live_labels: Vec<String>, request: BroadcastWindowMessageRequest) -> (r:
    WindowMessageDispatchResult)
    ensures
        r.envelope.from == sender,
        r.envelope.to is None,
        r.envelope.scope == WindowMessageScope::Broadcast,
        r.envelope.kind == request.kind,
        r.envelope.topic == request.topic,
        r.envelope.correlation_id == request.correlation_id,
        r.envelope.payload == request.payload,
        r.delivered_to == live_labels,
{
    let BroadcastWindowMessageRequest { kind, topic, correlation_id, payload } = request;
    let envelope = build_window_message_envelope(
        sender,
        None,
        WindowMessageScope::Broadcast,
        kind,
        topic,
        correlation_id,
        payload,
    );
    WindowMessageDispatchResult { envelope, delivered_to: live_labels }
}

} // verus!
