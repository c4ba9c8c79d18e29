//! Dispatch of decoded client requests onto the room registry, and the
//! per-connection session state.
//!
//! A connection session owns one handle per subscription it made. Dispatch
//! decides how the registry changes for each request and what, if anything,
//! must still be forwarded to the external bus; the caller performs that
//! bus publish and may see it fail, but local delivery has already happened
//! by then and does not depend on it.

use vstd::prelude::*;

use crate::protocol::{ClientRequest, ClientRequestV};
use crate::registry::{HandleView, Registry, RegistryView, SubscriberHandle};
use crate::text::str_eq;

verus! {

/// A message that must still be forwarded to the external bus, so that
/// other gateway processes relay it to their own local subscribers.
pub struct BusPublish {
    pub channel: String,
    pub message: String,
}

/// Per-connection session state: the handle of every room subscription this
/// connection still holds, oldest first.
pub struct Session {
    pub handles: Vec<SubscriberHandle>,
}

impl View for Session {
    type V = Seq<HandleView>;

    open spec fn view(&self) -> Seq<HandleView> {
        self.handles@.map_values(|h: SubscriberHandle| h@)
    }
}

/// Whether a session holds some subscription to this room.
pub open spec fn session_has_room(hs: Seq<HandleView>, room: Seq<char>) -> bool {
    exists|k: int| 0 <= k < hs.len() && (#[trigger] hs[k]).room == room
}

/// `k` is the position of the session's oldest handle for this room.
pub open spec fn first_room_match(hs: Seq<HandleView>, room: Seq<char>, k: int) -> bool {
    &&& 0 <= k < hs.len()
    &&& hs[k].room == room
    &&& forall|j: int| 0 <= j < k ==> (#[trigger] hs[j]).room != room
}

impl Session {
    /// A session with no subscriptions yet.
    pub fn new() -> (s: Session)
        ensures
            s@ == Seq::<HandleView>::empty(),
    {
        let s = Session { handles: Vec::new() };
        proof {
            assert(s@ =~= Seq::<HandleView>::empty());
        }
        s
    }
}

/// Apply one decoded client request to the registry on behalf of a session.
///
/// - `Subscribe` joins the room (creating it when absent) and records the
///   new handle in the session; nothing goes to the bus.
/// - `Unsubscribe` releases the session's oldest handle for that room; a
///   session that never subscribed to it leaves everything unchanged.
/// - `SendMessage` delivers to the local room fanout and returns the bus
///   forward the caller still owes. The local delivery has already happened
///   whatever later becomes of that bus publish.
#[verifier::loop_isolation(false)]
pub fn handle_request(reg: &mut Registry, sess: &mut Session, req: &ClientRequest) -> (out: Option<
    BusPublish,
>)
    requires
        old(reg).wf(),
        old(reg)@.next_id < u64::MAX,
    ensures
        final(reg).wf(),
        (req@ matches ClientRequestV::Subscribe { room } ==> final(reg)@ == old(reg)@.subscribe(room)
            && final(sess)@ == old(sess)@.push(
            HandleView { room: room, id: old(reg)@.next_id },
        ) && out is None),
        (req@ matches ClientRequestV::Unsubscribe { room } ==> out is None && (
        if session_has_room(old(sess)@, room) {
            (exists|k: int|
                (#[trigger] first_room_match(old(sess)@, room, k)) && final(sess)@ == old(
                    sess,
                )@.remove(k) && final(reg)@ == old(reg)@.unsubscribe(room, old(sess)@[k].id))
        } else {
            final(reg)@ == old(reg)@ && final(sess)@ == old(sess)@
        })),
        (req@ matches ClientRequestV::SendMessage { room, message } ==> final(reg)@ == old(
            reg,
        )@.publish(room, message) && final(sess)@ == old(sess)@ && (out matches Some(b)
            && b.channel@ == room && b.message@ == message)),
{
    match req {
        ClientRequest::Subscribe { payload } => {
            let h = reg.subscribe(payload.room.as_str());
            sess.handles.push(h);
            proof {
                assert(sess@ =~= old(sess)@.push(
                    HandleView { room: payload.room@, id: old(reg)@.next_id },
                ));
            }
            None
        },
        ClientRequest::Unsubscribe { payload } => {
            let n = sess.handles.len();
            let mut k: usize = 0;
            while k < n
                invariant
                    n == sess.handles@.len(),
                    k <= n,
                    forall|j: int| 0 <= j < k ==> (#[trigger] sess@[j]).room != payload.room@,
                    *sess == *old(sess),
                    *reg == *old(reg),
                decreases n - k,
            {
                if str_eq(sess.handles[k].room.as_str(), payload.room.as_str()) {
                    proof {
                        assert(first_room_match(old(sess)@, payload.room@, k as int));
                    }
                    reg.unsubscribe(&sess.handles[k]);
                    let _ = sess.handles.remove(k);
                    proof {
                        assert(sess@ =~= old(sess)@.remove(k as int));
                    }
                    return None;
                }
                k = k + 1;
            }
            proof {
                if session_has_room(sess@, payload.room@) {
                    let w = choose|w: int|
                        0 <= w < sess@.len() && (#[trigger] sess@[w]).room == payload.room@;
                    assert(false);
                }
            }
            None
        },
        ClientRequest::SendMessage { payload } => {
            reg.publish(payload.room.as_str(), payload.message.as_str());
            Some(
                BusPublish {
                    channel: String::from_str(payload.room.as_str()),
                    message: String::from_str(payload.message.as_str()),
                },
            )
        },
    }
}

/// The registry after releasing a sequence of handles, oldest first.
pub open spec fn release_all(v: RegistryView, hs: Seq<HandleView>) -> RegistryView
    decreases hs.len(),
{
    if hs.len() == 0 {
        v
    } else {
        release_all(v.unsubscribe(hs[0].room, hs[0].id), hs.drop_first())
    }
}

/// Deterministic cleanup when a connection ends, normally or abnormally:
/// every subscription the session still holds is released, in order, so
/// counts fall and emptied rooms are removed exactly as if the client had
/// unsubscribed from each one.
#[verifier::loop_isolation(false)]
pub fn close_session(reg: &mut Registry, sess: &mut Session)
    requires
        old(reg).wf(),
    ensures
        final(reg).wf(),
        final(reg)@ == release_all(old(reg)@, old(sess)@),
        final(sess)@ == Seq::<HandleView>::empty(),
{
    while sess.handles.len() > 0
        invariant
            reg.wf(),
            release_all(reg@, sess@) == release_all(old(reg)@, old(sess)@),
        decreases sess.handles@.len(),
    {
        let ghost pre_sess = sess@;
        let ghost pre_reg = reg@;
        let h = sess.handles.remove(0);
        proof {
            assert(sess@ =~= pre_sess.drop_first());
            assert(h@ == pre_sess[0]);
        }
        reg.unsubscribe(&h);
        proof {
            assert(release_all(pre_reg, pre_sess) == release_all(reg@, sess@));
        }
    }
    proof {
        assert(sess@ =~= Seq::<HandleView>::empty());
    }
}

} // verus!
