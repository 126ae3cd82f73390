//! The broadcast channel: a multi-producer, multi-consumer fan-out with a
//! bounded window of retained payloads.
//!
//! The channel keeps the last `CHANNEL_CAPACITY` published payloads and a
//! running count of everything ever published.  A subscriber holds only a
//! cursor into that history: publishing never waits for a slow subscriber,
//! and a subscriber that falls behind the retained window is told how much
//! it missed and fast-forwarded rather than fed stale payloads.
//!
//! The channel is a sequential structure; the process that serves many
//! connections at once shares it behind one lock and wakes waiting
//! subscribers itself, so `receive` here never suspends: it reports
//! `Pending` and the caller waits outside.

use vstd::prelude::*;
use crate::CHANNEL_CAPACITY;

verus! {

/// The first history index still retained when `len` payloads have been
/// published.
pub open spec fn base_of(len: nat) -> nat {
    if len <= CHANNEL_CAPACITY as nat {
        0
    } else {
        (len - CHANNEL_CAPACITY) as nat
    }
}

/// What one `receive` call yields.
#[derive(Debug)]
pub enum Receive {
    /// The next payload, in publish order.
    Payload(String),
    /// The subscriber fell behind the retained window; this many payloads
    /// were skipped and the cursor was fast-forwarded to the oldest
    /// retained payload.
    Lagged(u64),
    /// Nothing new has been published; the caller should wait and retry.
    Pending,
}

/// The mathematical shape of a `receive` outcome.
pub enum ReceiveView {
    Payload(Seq<char>),
    Lagged(nat),
    Pending,
}

impl View for Receive {
    type V = ReceiveView;

    open spec fn view(&self) -> ReceiveView {
        match self {
            Receive::Payload(p) => ReceiveView::Payload(p@),
            Receive::Lagged(n) => ReceiveView::Lagged(*n as nat),
            Receive::Pending => ReceiveView::Pending,
        }
    }
}

/// What `receive` yields for a subscriber at cursor `c` when the full
/// publish history is `hist`.
pub open spec fn spec_receive(hist: Seq<Seq<char>>, c: nat) -> ReceiveView {
    if c >= hist.len() {
        ReceiveView::Pending
    } else if c < base_of(hist.len()) {
        ReceiveView::Lagged((base_of(hist.len()) - c) as nat)
    } else {
        ReceiveView::Payload(hist[c as int])
    }
}

/// Where the cursor stands after that call.
pub open spec fn spec_next_cursor(hist: Seq<Seq<char>>, c: nat) -> nat {
    if c >= hist.len() {
        c
    } else if c < base_of(hist.len()) {
        base_of(hist.len())
    } else {
        c + 1
    }
}

/// A read handle: a cursor into the channel's publish history.
pub struct Subscriber {
    cursor: u64,
}

impl View for Subscriber {
    type V = nat;

    closed spec fn view(&self) -> nat {
        self.cursor as nat
    }
}

/// The fan-out channel itself.
pub struct Broadcaster {
    window: Vec<String>,
    published: u64,
    hist: Ghost<Seq<Seq<char>>>,
}

impl View for Broadcaster {
    type V = Seq<Seq<char>>;

    closed spec fn view(&self) -> Seq<Seq<char>> {
        self.hist@
    }
}

impl Broadcaster {
    /// The retained window holds exactly the most recent payloads of the
    /// history, and the publish counter counts the whole history.
    pub closed spec fn wf(&self) -> bool {
        &&& self.published as nat == self.hist@.len()
        &&& self.window@.len() == self.hist@.len() - base_of(self.hist@.len())
        &&& forall|i: int|
            0 <= i < self.window@.len() ==> #[trigger] self.window@[i]@ == self.hist@[
                base_of(self.hist@.len()) + i
            ]
    }

    /// Whether another payload can still be counted.
    pub open spec fn can_publish(&self) -> bool {
        self@.len() < u64::MAX as nat
    }

    /// A subscriber of this channel: its cursor never runs ahead of the
    /// history.
    pub open spec fn owns(&self, h: Subscriber) -> bool {
        h@ <= self@.len()
    }

    /// A fresh channel with no history.
    pub fn new() -> (r: Broadcaster)
        ensures
            r.wf(),
            r@ == Seq::<Seq<char>>::empty(),
    {
        Broadcaster { window: Vec::new(), published: 0, hist: Ghost(Seq::empty()) }
    }

    /// Appends a payload to the history.  Never waits: a slow or absent
    /// subscriber costs nothing, and with no subscribers at all the
    /// payload simply ages out of the window.
    pub fn publish(&mut self, payload: String)
        requires
            old(self).wf(),
            old(self).can_publish(),
        ensures
            final(self).wf(),
            final(self)@ == old(self)@.push(payload@),
    {
        let ghost oldhist = self.hist@;
        if self.window.len() == CHANNEL_CAPACITY {
            self.window.remove(0);
        }
        self.window.push(payload);
        self.published = self.published + 1;
        proof {
            self.hist@ = oldhist.push(payload@);
        }
    }

    /// `publish`, degraded to a report instead of a requirement when the
    /// publish counter is exhausted.
    pub fn try_publish(&mut self, payload: String) -> (r: bool)
        requires
            old(self).wf(),
        ensures
            final(self).wf(),
            r == old(self).can_publish(),
            r ==> final(self)@ == old(self)@.push(payload@),
            !r ==> final(self)@ == old(self)@,
    {
        if self.published < u64::MAX {
            self.publish(payload);
            true
        } else {
            false
        }
    }

    /// A new read handle, positioned at the current end of the history:
    /// a new subscriber sees nothing that was published before it arrived.
    pub fn subscribe(&self) -> (h: Subscriber)
        requires
            self.wf(),
        ensures
            h@ == self@.len(),
            self.owns(h),
    {
        Subscriber { cursor: self.published }
    }

    /// One read step for the given handle: the next retained payload in
    /// publish order, a lag report if the cursor fell out of the window,
    /// or `Pending` when the subscriber has seen the whole history.
    pub fn receive(&self, h: &mut Subscriber) -> (r: Receive)
        requires
            self.wf(),
            self.owns(*old(h)),
        ensures
            r@ == spec_receive(self@, old(h)@),
            final(h)@ == spec_next_cursor(self@, old(h)@),
            self.owns(*final(h)),
            final(h)@ >= old(h)@,
    {
        let len = self.published;
        let base = self.published - (self.window.len() as u64);
        if h.cursor == len {
            Receive::Pending
        } else if h.cursor < base {
            let missed = base - h.cursor;
            h.cursor = base;
            Receive::Lagged(missed)
        } else {
            let idx = (h.cursor - base) as usize;
            let p = String::from_str(self.window[idx].as_str());
            h.cursor = h.cursor + 1;
            Receive::Payload(p)
        }
    }
}

/// Law: a subscriber never sees history from before it subscribed.  A
/// handle starts at the history length of the moment of `subscribe`, and
/// the cursor never moves backwards, so whenever `receive` yields a
/// payload it is one published at or after that moment.
pub proof fn lemma_no_history_for_late_joiners(hist: Seq<Seq<char>>, at_subscribe: nat, c: nat)
    requires
        at_subscribe <= c,
    ensures
        spec_next_cursor(hist, c) >= c,
        spec_receive(hist, c) is Payload ==> at_subscribe <= c < hist.len() && spec_receive(
            hist,
            c,
        ) == ReceiveView::Payload(hist[c as int]),
{
}

/// Law: a subscriber that missed more than `CHANNEL_CAPACITY` publishes is
/// told how many payloads it lost — it is neither fed a stale payload nor
/// does it make any publisher wait.
pub proof fn lemma_bounded_lag(hist: Seq<Seq<char>>, c: nat)
    requires
        c + CHANNEL_CAPACITY < hist.len(),
    ensures
        spec_receive(hist, c) == ReceiveView::Lagged(
            (base_of(hist.len()) - c) as nat,
        ),
        base_of(hist.len()) > c,
{
}

/// Law: payloads reach a subscriber in publish order — each successful
/// read yields the history entry at the cursor and advances the cursor
/// just past it, so consecutive reads yield consecutive history entries.
pub proof fn lemma_in_order_delivery(hist: Seq<Seq<char>>, c: nat)
    requires
        base_of(hist.len()) <= c < hist.len(),
    ensures
        spec_receive(hist, c) == ReceiveView::Payload(hist[c as int]),
        spec_next_cursor(hist, c) == c + 1,
{
}

} // verus!
