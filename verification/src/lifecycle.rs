//! Laws of an app's lifecycle as the registry records it: what starting,
//! stopping and probing one app do to what is read back for it and for the
//! other apps.

use vstd::prelude::*;
use crate::schema::{AppConfig, StartMode};
use crate::supervisor::{
    RuntimeView, RuntimeStatus, fresh_runtime, ids_distinct, is_live, lemma_distinct_push,
    lemma_distinct_update, lemma_position_of, lookup, position, started_runtime, stopped_runtime,
    updated_at, upserted, with_status,
};

verus! {

/// Changing the record of one app in a way that keeps its configuration
/// changes what is read back for that app by the same change, and nothing
/// else.
pub proof fn lemma_lookup_updated(
    entries: Seq<RuntimeView>,
    id: Seq<char>,
    f: spec_fn(RuntimeView) -> RuntimeView,
    other: Seq<char>,
)
    requires
        ids_distinct(entries),
        forall|rt: RuntimeView| #[trigger] f(rt).config == rt.config,
    ensures
        ids_distinct(updated_at(entries, id, f)),
        lookup(updated_at(entries, id, f), other) == if other == id {
            match lookup(entries, id) {
                Some(rt) => Some(f(rt)),
                None => None,
            }
        } else {
            lookup(entries, other)
        },
{
    let e2 = updated_at(entries, id, f);
    match position(entries, id) {
        None => {},
        Some(i) => {
            assert(f(entries[i]).config == entries[i].config);
            lemma_distinct_update(entries, i, f(entries[i]));
            match position(entries, other) {
                Some(j) => {
                    assert(e2[j].config.id@ == other);
                    lemma_position_of(e2, j);
                    if j == i {
                        lemma_position_of(entries, i);
                    }
                },
                None => {
                    if exists|k: int| 0 <= k < e2.len() && (#[trigger] e2[k]).config.id@ == other {
                        let k = choose|k: int| 0 <= k < e2.len() && (#[trigger] e2[k]).config.id@ == other;
                        assert(entries[k].config.id@ == e2[k].config.id@);
                        assert(false);
                    }
                },
            }
        },
    }
}

/// Once an app's process is recorded as started, the app counts as running
/// and will restart in the mode it was started in.
pub proof fn lemma_started_is_running(entries: Seq<RuntimeView>, id: Seq<char>, pid: u32, mode: StartMode)
    requires
        ids_distinct(entries),
        lookup(entries, id) is Some,
    ensures
        lookup(updated_at(entries, id, |rt: RuntimeView| started_runtime(rt, pid, mode)), id) matches Some(rt)
            && is_live(rt) && rt.pid == Some(pid) && rt.last_mode == Some(mode),
{
    let f = |rt: RuntimeView| started_runtime(rt, pid, mode);
    assert forall|rt: RuntimeView| #[trigger] f(rt).config == rt.config by {}
    lemma_lookup_updated(entries, id, f, id);
}

/// Once an app's process is recorded as gone, the app no longer counts as
/// running and has no process id.
pub proof fn lemma_stopped_is_not_running(entries: Seq<RuntimeView>, id: Seq<char>)
    requires
        ids_distinct(entries),
        lookup(entries, id) is Some,
    ensures
        lookup(updated_at(entries, id, |rt: RuntimeView| stopped_runtime(rt)), id) matches Some(rt)
            && !is_live(rt) && rt.pid is None && rt.status == RuntimeStatus::Stopped,
{
    let f = |rt: RuntimeView| stopped_runtime(rt);
    assert forall|rt: RuntimeView| #[trigger] f(rt).config == rt.config by {}
    lemma_lookup_updated(entries, id, f, id);
}

/// Starting or stopping one app leaves what is read back for every other
/// app unchanged.
pub proof fn lemma_other_apps_unchanged(
    entries: Seq<RuntimeView>,
    id: Seq<char>,
    pid: u32,
    mode: StartMode,
    status: RuntimeStatus,
    other: Seq<char>,
)
    requires
        ids_distinct(entries),
        other != id,
    ensures
        lookup(updated_at(entries, id, |rt: RuntimeView| started_runtime(rt, pid, mode)), other)
            == lookup(entries, other),
        lookup(updated_at(entries, id, |rt: RuntimeView| stopped_runtime(rt)), other) == lookup(
            entries,
            other,
        ),
        lookup(updated_at(entries, id, |rt: RuntimeView| with_status(rt, status)), other) == lookup(
            entries,
            other,
        ),
{
    let f = |rt: RuntimeView| started_runtime(rt, pid, mode);
    assert forall|rt: RuntimeView| #[trigger] f(rt).config == rt.config by {}
    lemma_lookup_updated(entries, id, f, other);
    let g = |rt: RuntimeView| stopped_runtime(rt);
    assert forall|rt: RuntimeView| #[trigger] g(rt).config == rt.config by {}
    lemma_lookup_updated(entries, id, g, other);
    let h = |rt: RuntimeView| with_status(rt, status);
    assert forall|rt: RuntimeView| #[trigger] h(rt).config == rt.config by {}
    lemma_lookup_updated(entries, id, h, other);
}


/// The runtime state with the address the app is exposed at.
pub open spec fn with_expose_url(rt: RuntimeView, url: Option<Seq<char>>) -> RuntimeView {
    RuntimeView { expose_url: url, ..rt }
}

/// Law (exposure address): after setting the address an app is exposed at,
/// reading it back gives that address when the app is registered (none
/// when it is not, nothing being changed); other apps keep theirs.
pub proof fn lemma_expose_url_after_set(
    entries: Seq<RuntimeView>,
    id: Seq<char>,
    url: Option<Seq<char>>,
    other: Seq<char>,
)
    requires
        ids_distinct(entries),
    ensures
        lookup(updated_at(entries, id, |rt: RuntimeView| with_expose_url(rt, url)), id) == match lookup(
            entries,
            id,
        ) {
            Some(rt) => Some(with_expose_url(rt, url)),
            None => None,
        },
        other != id ==> lookup(updated_at(entries, id, |rt: RuntimeView| with_expose_url(rt, url)), other)
            == lookup(entries, other),
{
    let f = |rt: RuntimeView| with_expose_url(rt, url);
    assert forall|rt: RuntimeView| #[trigger] f(rt).config == rt.config by {}
    lemma_lookup_updated(entries, id, f, id);
    lemma_lookup_updated(entries, id, f, other);
}

/// Law: an app registered for the first time is not exposed anywhere.
pub proof fn lemma_new_app_not_exposed(entries: Seq<RuntimeView>, config: AppConfig)
    requires
        ids_distinct(entries),
        lookup(entries, config.id@) is None,
    ensures
        lookup(upserted(entries, config), config.id@) matches Some(rt) && rt.expose_url is None
            && rt.status == RuntimeStatus::Stopped && rt.pid is None,
{
    assert(position(entries, config.id@) is None);
    lemma_position_of(upserted(entries, config), entries.len() as int);
    lemma_distinct_push(entries, fresh_runtime(config, None));
}

} // verus!
