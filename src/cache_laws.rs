//! What holds of the cache across commands.
use vstd::prelude::*;
use crate::frame::Frame;
use crate::storage::{StateModel, Stored, after_set, after_del, after_purge, get_reply, deadline, live};

verus! {

/// After `SET k v` with no expiry, `GET k` reads `v` at every later time.
pub proof fn lemma_set_then_get(m: StateModel, k: Frame, v: Frame, now: u64, t: int)
    ensures
        get_reply(after_set(m, k, v, None, now), k, t) == v,
{
}

/// Setting or deleting another key leaves what `GET k` reads unchanged, so
/// `GET k` keeps reading `v` until `k` itself is set again or deleted.
pub proof fn lemma_other_keys_kept(
    m: StateModel,
    k: Frame,
    k2: Frame,
    v2: Frame,
    e2: Option<u64>,
    now: u64,
    t: int,
)
    requires
        k2 != k,
    ensures
        get_reply(after_set(m, k2, v2, e2, now), k, t) == get_reply(m, k, t),
        get_reply(after_del(m, k2), k, t) == get_reply(m, k, t),
{
    assert(after_set(m, k2, v2, e2, now).entries.contains_key(k) == m.entries.contains_key(k));
    assert(after_del(m, k2).entries.contains_key(k) == m.entries.contains_key(k));
}

/// Deleting twice is deleting once, and `GET k` then reads null.
pub proof fn lemma_del_twice(m: StateModel, k: Frame, t: int)
    ensures
        after_del(after_del(m, k), k) == after_del(m, k),
        get_reply(after_del(m, k), k, t) == Frame::Null,
{
    assert(after_del(after_del(m, k), k).entries =~= after_del(m, k).entries);
    assert(after_del(after_del(m, k), k).expirations =~= after_del(m, k).expirations);
}

/// After `SET k v` to lapse `d` milliseconds from `now`, `GET k` reads `v`
/// before the deadline and null from the deadline on.
pub proof fn lemma_expiry(m: StateModel, k: Frame, v: Frame, d: u64, now: u64, t: int)
    ensures
        t < deadline(now, d) ==> get_reply(after_set(m, k, v, Some(d), now), k, t) == v,
        t >= deadline(now, d) ==> get_reply(after_set(m, k, v, Some(d), now), k, t) == Frame::Null,
{
}

/// One change to the state: a `SET`, a `DEL`, or a pass of the purger.
pub enum Step {
    SetKey(Frame, Frame, Option<u64>, u64),
    DelKey(Frame),
    Purge(u64),
}

pub open spec fn apply_step(m: StateModel, s: Step) -> StateModel {
    match s {
        Step::SetKey(k, v, e, now) => after_set(m, k, v, e, now),
        Step::DelKey(k) => after_del(m, k),
        Step::Purge(now) => after_purge(m, now),
    }
}

/// The state after the steps, in order.
pub open spec fn run_steps(m: StateModel, steps: Seq<Step>) -> StateModel
    decreases steps.len(),
{
    if steps.len() == 0 {
        m
    } else {
        apply_step(run_steps(m, steps.drop_last()), steps.last())
    }
}

/// The step sets or deletes `k`.
pub open spec fn touches(s: Step, k: Frame) -> bool {
    match s {
        Step::SetKey(k2, _, _, _) => k2 == k,
        Step::DelKey(k2) => k2 == k,
        Step::Purge(_) => false,
    }
}

/// Every purge among the steps runs no later than `t`.
pub open spec fn purged_by(steps: Seq<Step>, t: int) -> bool {
    forall|i: int| 0 <= i < steps.len() ==> (#[trigger] steps[i] matches Step::Purge(p) ==> p <= t)
}

proof fn lemma_entry_kept(m: StateModel, k: Frame, st: Stored, steps: Seq<Step>, t: int)
    requires
        m.entries.contains_key(k),
        m.entries[k] == st,
        live(st.expires_at, t),
        forall|i: int| 0 <= i < steps.len() ==> !touches(#[trigger] steps[i], k),
        purged_by(steps, t),
    ensures
        run_steps(m, steps).entries.contains_key(k),
        run_steps(m, steps).entries[k] == st,
    decreases steps.len(),
{
    if steps.len() > 0 {
        let init = steps.drop_last();
        assert forall|i: int| 0 <= i < init.len() implies !touches(#[trigger] init[i], k) by {
            assert(init[i] == steps[i]);
        }
        assert forall|i: int| 0 <= i < init.len() implies (#[trigger] init[i] matches Step::Purge(p) ==> p <= t) by {
            assert(init[i] == steps[i]);
        }
        lemma_entry_kept(m, k, st, init, t);
        assert(!touches(steps[steps.len() - 1], k));
        assert(steps[steps.len() - 1] matches Step::Purge(p) ==> p <= t);
    }
}

proof fn lemma_entry_not_other(m: StateModel, k: Frame, st: Stored, steps: Seq<Step>)
    requires
        m.entries.contains_key(k) ==> m.entries[k] == st,
        forall|i: int| 0 <= i < steps.len() ==> !touches(#[trigger] steps[i], k),
    ensures
        run_steps(m, steps).entries.contains_key(k) ==> run_steps(m, steps).entries[k] == st,
    decreases steps.len(),
{
    if steps.len() > 0 {
        let init = steps.drop_last();
        assert forall|i: int| 0 <= i < init.len() implies !touches(#[trigger] init[i], k) by {
            assert(init[i] == steps[i]);
        }
        lemma_entry_not_other(m, k, st, init);
        assert(!touches(steps[steps.len() - 1], k));
    }
}

/// After `SET k v` with no expiry, `GET k` reads `v` after any steps that
/// neither set nor delete `k`: sets and deletes of other keys, and purges.
pub proof fn lemma_set_get_across(m: StateModel, k: Frame, v: Frame, now: u64, steps: Seq<Step>, t: int)
    requires
        forall|i: int| 0 <= i < steps.len() ==> !touches(#[trigger] steps[i], k),
    ensures
        get_reply(run_steps(after_set(m, k, v, None, now), steps), k, t) == v,
{
    let st = Stored { data: v, expires_at: None };
    let m1 = after_set(m, k, v, None, now);
    assert(m1.entries[k] == st);
    lemma_entry_kept_any(m1, k, st, steps);
}

proof fn lemma_entry_kept_any(m: StateModel, k: Frame, st: Stored, steps: Seq<Step>)
    requires
        m.entries.contains_key(k),
        m.entries[k] == st,
        st.expires_at is None,
        forall|i: int| 0 <= i < steps.len() ==> !touches(#[trigger] steps[i], k),
    ensures
        run_steps(m, steps).entries.contains_key(k),
        run_steps(m, steps).entries[k] == st,
    decreases steps.len(),
{
    if steps.len() > 0 {
        let init = steps.drop_last();
        assert forall|i: int| 0 <= i < init.len() implies !touches(#[trigger] init[i], k) by {
            assert(init[i] == steps[i]);
        }
        lemma_entry_kept_any(m, k, st, init);
        assert(!touches(steps[steps.len() - 1], k));
    }
}

/// After `SET k v` to lapse `d` milliseconds from `now`, and any steps that
/// neither set nor delete `k` and purge no later than `t`, `GET k` at `t`
/// reads `v` before the deadline and null from the deadline on.
pub proof fn lemma_expiry_across(
    m: StateModel,
    k: Frame,
    v: Frame,
    d: u64,
    now: u64,
    steps: Seq<Step>,
    t: int,
)
    requires
        forall|i: int| 0 <= i < steps.len() ==> !touches(#[trigger] steps[i], k),
        purged_by(steps, t),
    ensures
        t < deadline(now, d) ==> get_reply(run_steps(after_set(m, k, v, Some(d), now), steps), k, t) == v,
        t >= deadline(now, d) ==> get_reply(run_steps(after_set(m, k, v, Some(d), now), steps), k, t)
            == Frame::Null,
{
    let st = Stored { data: v, expires_at: Some(deadline(now, d)) };
    let m1 = after_set(m, k, v, Some(d), now);
    assert(m1.entries[k] == st);
    if t < deadline(now, d) {
        lemma_entry_kept(m1, k, st, steps, t);
    } else {
        lemma_entry_not_other(m1, k, st, steps);
    }
}

} // verus!