//! The decisions of a connection in subscriber mode: the frames it sends,
//! and how it answers the commands that arrive meanwhile.
use vstd::prelude::*;
use vstd::utf8::encode_utf8;
use vstd::string::StringSliceAdditionalSpecFns;
use crate::cmd::{Command, Request, command_of, refused_as, string_views, name_of, unknown_reply};
use crate::entity::{Entity, views, lemma_views};
use crate::error::CacheError;
use crate::frame::Frame;

verus! {

/// A count as a frame integer, held at `i64::MAX`.
pub open spec fn count_int(n: int) -> int {
    if n <= i64::MAX {
        n
    } else {
        i64::MAX as int
    }
}

fn count_entity(n: usize) -> (r: Entity)
    ensures
        r@ == Frame::Integer(count_int(n as int)),
{
    if n as u64 <= i64::MAX as u64 {
        Entity::Integer(n as i64)
    } else {
        Entity::Integer(i64::MAX)
    }
}

fn text_bulk(s: &str) -> (r: Entity)
    ensures
        r@ == Frame::Bulk(encode_utf8(s@)),
{
    Entity::Bulk(vstd::slice::slice_to_vec(s.as_bytes()))
}

/// The three-element frame `[kind, channel, last]`.
pub open spec fn event_frame(kind: Seq<char>, channel: Seq<char>, last: Frame) -> Frame {
    Frame::Array(seq![Frame::Bulk(encode_utf8(kind)), Frame::Bulk(encode_utf8(channel)), last])
}

fn three(a: Entity, b: Entity, c: Entity) -> (r: Entity)
    ensures
        r@ == Frame::Array(seq![a@, b@, c@]),
{
    let mut r = Entity::array();
    r.push(a);
    r.push(b);
    r.push(c);
    proof {
        assert(r@->Array_0 =~= seq![a@, b@, c@]);
    }
    r
}

/// Confirms a subscription; `num_subs` is how many the connection holds.
pub fn make_subscribe_frame(channel_name: String, num_subs: usize) -> (r: Entity)
    ensures
        r@ == event_frame("subscribe"@, channel_name@, Frame::Integer(count_int(num_subs as int))),
{
    three(text_bulk("subscribe"), text_bulk(channel_name.as_str()), count_entity(num_subs))
}

/// Confirms the end of a subscription; `num_subs` is how many are left.
pub fn make_unsubscribe_frame(channel_name: String, num_subs: usize) -> (r: Entity)
    ensures
        r@ == event_frame("unsubscribe"@, channel_name@, Frame::Integer(count_int(num_subs as int))),
{
    three(text_bulk("unsubscribe"), text_bulk(channel_name.as_str()), count_entity(num_subs))
}

/// Carries a message published on a channel.
pub fn make_message_frame(channel_name: String, frame: Entity) -> (r: Entity)
    ensures
        r@ == event_frame("message"@, channel_name@, frame@),
{
    three(text_bulk("message"), text_bulk(channel_name.as_str()), frame)
}

/// The subscriptions left after dropping each of `targets` in turn.
pub open spec fn after_unsubscribe(subs: Seq<Seq<char>>, targets: Seq<Seq<char>>) -> Seq<Seq<char>>
    decreases targets.len(),
{
    if targets.len() == 0 {
        subs
    } else {
        let t = targets.last();
        after_unsubscribe(subs, targets.drop_last()).filter(other_than(t))
    }
}

/// The frames that answer an unsubscribe from `targets`, one per target,
/// each with the count left after it.
pub open spec fn unsubscribe_replies(subs: Seq<Seq<char>>, targets: Seq<Seq<char>>) -> Seq<Frame> {
    Seq::new(
        targets.len(),
        |i: int|
            event_frame(
                "unsubscribe"@,
                targets[i],
                Frame::Integer(count_int(after_unsubscribe(subs, targets.take(i + 1)).len() as int)),
            ),
    )
}

/// Holds of every name but `n`.
pub open spec fn other_than(n: Seq<char>) -> spec_fn(Seq<char>) -> bool {
    |c: Seq<char>| c != n
}

fn copy_names(v: &Vec<String>) -> (r: Vec<String>)
    ensures
        string_views(r@) == string_views(v@),
{
    let mut r: Vec<String> = Vec::new();
    let mut k: usize = 0;
    while k < v.len()
        invariant
            k <= v@.len(),
            string_views(r@) == string_views(v@).take(k as int),
        decreases v@.len() - k,
    {
        let ghost before = r@;
        r.push(v[k].clone());
        proof {
            assert(string_views(r@) =~= string_views(before).push(v@[k as int]@));
            assert(string_views(v@).take(k + 1) =~= string_views(v@).take(k as int).push(v@[k as int]@));
        }
        k = k + 1;
    }
    proof {
        assert(string_views(v@).take(k as int) =~= string_views(v@));
    }
    r
}

/// Drops `name` from the subscriptions.
fn remove_channel(subs: &mut Vec<String>, name: &String)
    ensures
        string_views(final(subs)@) == string_views(old(subs)@).filter(other_than(name@)),
{
    let ghost v0 = string_views(subs@);
    let mut kept: Vec<String> = Vec::new();
    let mut k: usize = 0;
    proof {
        assert(v0.take(0) =~= Seq::<Seq<char>>::empty());
        assert(string_views(kept@) =~= v0.take(0).filter(other_than(name@)));
    }
    while k < subs.len()
        invariant
            k <= subs@.len(),
            v0 == string_views(subs@),
            subs@ == old(subs)@,
            string_views(kept@) == v0.take(k as int).filter(other_than(name@)),
        decreases subs@.len() - k,
    {
        let ghost before = kept@;
        proof {
            assert(v0.take(k + 1).drop_last() =~= v0.take(k as int));
            assert(v0.take(k + 1).last() == subs@[k as int]@);
        }
        if !subs[k].eq(name) {
            kept.push(subs[k].clone());
            proof {
                reveal(Seq::filter);
                assert(other_than(name@)(subs@[k as int]@));
                assert(v0.take(k + 1).filter(other_than(name@)) == v0.take(k as int).filter(
                    other_than(name@),
                ).push(subs@[k as int]@));
                assert(string_views(kept@) =~= string_views(before).push(subs@[k as int]@));
            }
        } else {
            proof {
                reveal(Seq::filter);
                assert(!other_than(name@)(subs@[k as int]@));
                assert(v0.take(k + 1).filter(other_than(name@)) == v0.take(k as int).filter(
                    other_than(name@),
                ));
            }
        }
        k = k + 1;
    }
    proof {
        assert(v0.take(k as int) =~= v0);
    }
    *subs = kept;
}

/// Answers a frame that arrives while the connection is subscribed.
/// `subscribe_to` collects the channels still to be joined; `subscriptions`
/// names those joined.
pub fn handle_command(
    frame: Entity,
    subscribe_to: &mut Vec<String>,
    subscriptions: &mut Vec<String>,
) -> (r: Result<Vec<Entity>, CacheError>)
    ensures
        match command_of(frame@) {
            Err(e) => r is Err && refused_as(Err(e), r->Err_0) && final(subscribe_to)@
                == old(subscribe_to)@ && final(subscriptions)@ == old(subscriptions)@,
            Ok(Request::Subscribe(chs)) => r is Ok && r->Ok_0@.len() == 0 && string_views(
                final(subscribe_to)@,
            ) == string_views(old(subscribe_to)@) + chs && final(subscriptions)@ == old(
                subscriptions,
            )@,
            Ok(Request::Unsubscribe(chs)) => {
                let targets = if chs.len() == 0 {
                    string_views(old(subscriptions)@)
                } else {
                    chs
                };
                &&& r is Ok
                &&& views(r->Ok_0@) == unsubscribe_replies(string_views(old(subscriptions)@), targets)
                &&& string_views(final(subscriptions)@) == after_unsubscribe(
                    string_views(old(subscriptions)@),
                    targets,
                )
                &&& final(subscribe_to)@ == old(subscribe_to)@
            },
            Ok(other) => r is Ok && views(r->Ok_0@) == seq![
                Frame::Error("ERR unknown command '"@ + name_of(other) + "'"@),
            ] && final(subscribe_to)@ == old(subscribe_to)@ && final(subscriptions)@ == old(
                subscriptions,
            )@,
        },
{
    let command = Command::from_frame(frame)?;
    match command {
        Command::Subscribe(s) => {
            let ghost before = subscribe_to@;
            let mut chs = s.channels;
            subscribe_to.append(&mut chs);
            proof {
                assert(string_views(subscribe_to@) =~= string_views(before) + string_views(s.channels@));
            }
            Ok(Vec::new())
        },
        Command::Unsubscribe(u) => {
            let ghost subs0 = string_views(subscriptions@);
            let targets: Vec<String> = if u.channels.len() == 0 {
                copy_names(subscriptions)
            } else {
                u.channels
            };
            proof {
                assert(string_views(targets@).take(0) =~= Seq::<Seq<char>>::empty());
                assert(Seq::<Frame>::empty() =~= unsubscribe_replies(subs0, string_views(targets@)).take(0));
            }
            let mut replies: Vec<Entity> = Vec::new();
            let mut i: usize = 0;
            while i < targets.len()
                invariant
                    i <= targets@.len(),
                    subscribe_to@ == old(subscribe_to)@,
                    subs0 == string_views(old(subscriptions)@),
                    string_views(subscriptions@) == after_unsubscribe(subs0, string_views(targets@).take(i as int)),
                    views(replies@) == unsubscribe_replies(subs0, string_views(targets@)).take(i as int),
                decreases targets@.len() - i,
            {
                let ghost tv = string_views(targets@);
                remove_channel(subscriptions, &targets[i]);
                proof {
                    assert(tv.take(i + 1).drop_last() =~= tv.take(i as int));
                    assert(tv.take(i + 1).last() == targets@[i as int]@);
                }
                let name = targets[i].clone();
                let reply = make_unsubscribe_frame(name, subscriptions.len());
                let ghost before = replies@;
                replies.push(reply);
                proof {
                    assert(replies@.drop_last() =~= before);
                    assert(unsubscribe_replies(subs0, tv).take(i + 1) =~= unsubscribe_replies(subs0, tv).take(i as int).push(reply@));
                }
                i = i + 1;
            }
            proof {
                assert(string_views(targets@).take(i as int) =~= string_views(targets@));
                assert(unsubscribe_replies(subs0, string_views(targets@)).take(i as int) =~= unsubscribe_replies(subs0, string_views(targets@)));
            }
            Ok(replies)
        },
        other => {
            let mut replies: Vec<Entity> = Vec::new();
            let reply = unknown_reply(other.get_name());
            replies.push(reply);
            proof {
                lemma_views(replies@);
                assert(views(replies@) =~= seq![reply@]);
            }
            Ok(replies)
        },
    }
}

/// Whether `name` is among `v`.
pub fn contains_name(v: &Vec<String>, name: &String) -> (r: bool)
    ensures
        r == string_views(v@).contains(name@),
{
    let mut k: usize = 0;
    while k < v.len()
        invariant
            k <= v@.len(),
            forall|j: int| 0 <= j < k ==> v@[j]@ != name@,
        decreases v@.len() - k,
    {
        if v[k].eq(name) {
            proof {
                assert(string_views(v@)[k as int] == name@);
            }
            return true;
        }
        k = k + 1;
    }
    proof {
        if string_views(v@).contains(name@) {
            let j = choose|j: int| 0 <= j < string_views(v@).len() && string_views(v@)[j] == name@;
            assert(v@[j]@ == name@);
        }
    }
    false
}

/// Adds `name` to the subscriptions unless it is there already, and
/// returns how many there are then.
pub fn join(subscriptions: &mut Vec<String>, name: String) -> (count: usize)
    ensures
        string_views(final(subscriptions)@) == if string_views(old(subscriptions)@).contains(name@) {
            string_views(old(subscriptions)@)
        } else {
            string_views(old(subscriptions)@).push(name@)
        },
        count == final(subscriptions)@.len(),
{
    if !contains_name(subscriptions, &name) {
        let ghost before = subscriptions@;
        subscriptions.push(name);
        proof {
            assert(string_views(subscriptions@) =~= string_views(before).push(subscriptions@.last()@));
        }
    }
    subscriptions.len()
}

/// Holds of every name not among `s`.
pub open spec fn not_in(s: Seq<Seq<char>>) -> spec_fn(Seq<char>) -> bool {
    |c: Seq<char>| !s.contains(c)
}

/// The names of `before` that `after` no longer holds, in order.
pub fn left_out(before: &Vec<String>, after: &Vec<String>) -> (r: Vec<String>)
    ensures
        string_views(r@) == string_views(before@).filter(not_in(string_views(after@))),
{
    let ghost v0 = string_views(before@);
    let ghost keep = not_in(string_views(after@));
    let mut out: Vec<String> = Vec::new();
    let mut k: usize = 0;
    proof {
        reveal(Seq::filter);
        assert(v0.take(0) =~= Seq::<Seq<char>>::empty());
        assert(string_views(out@) =~= v0.take(0).filter(keep));
    }
    while k < before.len()
        invariant
            k <= before@.len(),
            v0 == string_views(before@),
            keep == not_in(string_views(after@)),
            string_views(out@) == v0.take(k as int).filter(keep),
        decreases before@.len() - k,
    {
        let ghost prev = out@;
        proof {
            reveal(Seq::filter);
            assert(v0.take(k + 1).drop_last() =~= v0.take(k as int));
            assert(v0.take(k + 1).last() == before@[k as int]@);
        }
        if !contains_name(after, &before[k]) {
            out.push(before[k].clone());
            proof {
                reveal(Seq::filter);
                assert(keep(before@[k as int]@));
                assert(v0.take(k + 1).filter(keep) == v0.take(k as int).filter(keep).push(before@[k as int]@));
                assert(string_views(out@) =~= string_views(prev).push(before@[k as int]@));
            }
        } else {
            proof {
                reveal(Seq::filter);
                assert(!keep(before@[k as int]@));
                assert(v0.take(k + 1).filter(keep) == v0.take(k as int).filter(keep));
            }
        }
        k = k + 1;
    }
    proof {
        assert(v0.take(k as int) =~= v0);
    }
    out
}

} // verus!