//! Wake-up signals between the endpoints of a buffer.
//!
//! A signal carries no data: it tells the other side that progress may be
//! possible. Signals travel over channels that hold one message, so any
//! number of signals sent before the receiver looks coalesce into one.

use vstd::prelude::*;
use tokio::sync::mpsc::error::{TryRecvError, TrySendError};
use tokio::sync::mpsc::{Receiver, Sender};

verus! {

/// The sending half of a channel, `tokio::sync::mpsc::Sender`. Nothing is
/// known of what it holds.
#[verifier::external_type_specification]
#[verifier::external_body]
#[verifier::reject_recursive_types(T)]
pub struct ExSender<T>(Sender<T>);

/// The receiving half of a channel, `tokio::sync::mpsc::Receiver`. Nothing
/// is known of what it holds.
#[verifier::external_type_specification]
#[verifier::external_body]
#[verifier::reject_recursive_types(T)]
pub struct ExReceiver<T>(Receiver<T>);

/// What became of a signal.
#[derive(Debug, Clone, Copy, PartialEq, Eq, Structural)]
pub enum Signal {
    /// The signal was put into the channel.
    Sent,
    /// A signal was waiting in the channel already; the two are one now.
    Coalesced,
    /// The receiver is gone.
    Closed,
}

/// What a receiver found in its channel.
#[derive(Debug, Clone, Copy, PartialEq, Eq, Structural)]
pub enum Wake {
    /// A signal was waiting, and has been taken out.
    Signalled,
    /// Nothing was waiting.
    Idle,
    /// Nothing was waiting, and every sender is gone.
    Closed,
}

/// The largest number of messages a channel can be made to hold.
pub open spec fn spec_max_buffer() -> int {
    usize::MAX as int / 8
}

/// The number of messages that the channel of `sender` was made to hold:
/// what `tokio::sync::mpsc::Sender::max_capacity` tells of it. It is set when
/// the channel is made and never changes.
pub uninterp spec fn spec_bound(sender: Sender<()>) -> int;

/// Makes a channel that holds up to `buffer` messages.
///
/// Calls `tokio::sync::mpsc::channel`, which panics where `buffer` is zero
/// or above an eighth of the address space. The channel it returns is made
/// to hold `buffer` messages; nothing else is claimed of its two halves.
#[verifier::external_body]
fn channel(buffer: usize) -> (ends: (Sender<()>, Receiver<()>))
    requires
        0 < buffer <= spec_max_buffer(),
    ensures
        spec_bound(ends.0) == buffer,
{
    tokio::sync::mpsc::channel(buffer)
}

/// Tries to put a signal into the channel of `sender`.
///
/// Calls `tokio::sync::mpsc::Sender::try_send` and tells its three
/// outcomes apart. Which of them comes back depends on what the channel
/// holds and on whether its receiver still exists, so nothing is claimed
/// of the result.
#[verifier::external_body]
pub(crate) fn try_signal(sender: &Sender<()>) -> (signal: Signal) {
    match sender.try_send(()) {
        Ok(()) => Signal::Sent,
        Err(TrySendError::Full(())) => Signal::Coalesced,
        Err(TrySendError::Closed(())) => Signal::Closed,
    }
}

/// Takes the signal that waits in the channel of `receiver`, if there is
/// one.
///
/// Calls `tokio::sync::mpsc::Receiver::try_recv` and tells its three
/// outcomes apart. Which of them comes back depends on what the channel
/// holds and on whether a sender still exists, so nothing is claimed of the
/// result.
#[verifier::external_body]
pub(crate) fn try_wake(receiver: &mut Receiver<()>) -> (wake: Wake) {
    match receiver.try_recv() {
        Ok(()) => Wake::Signalled,
        Err(TryRecvError::Empty) => Wake::Idle,
        Err(TryRecvError::Disconnected) => Wake::Closed,
    }
}

/// Whether the receiver of a signal with this outcome still exists.
pub open spec fn spec_connected(signal: Signal) -> bool {
    signal != Signal::Closed
}

/// Whether the receiver of a signal with this outcome still exists.
pub fn connected(signal: Signal) -> (alive: bool)
    ensures
        alive == spec_connected(signal),
{
    match signal {
        Signal::Closed => false,
        _ => true,
    }
}

/// Whether a sender of the channel in which this was found still exists.
pub open spec fn spec_attended(wake: Wake) -> bool {
    wake != Wake::Closed
}

/// Whether a sender of the channel in which this was found still exists.
pub fn attended(wake: Wake) -> (alive: bool)
    ensures
        alive == spec_attended(wake),
{
    match wake {
        Wake::Closed => false,
        _ => true,
    }
}

/// Makes the channel for the signals of one endpoint: it holds a single
/// signal.
pub fn notifier() -> (ends: (Sender<()>, Receiver<()>))
    ensures
        spec_bound(ends.0) == 1,
{
    channel(1)
}

/// Signals the receiver of `sender`, and tells whether it still exists. A
/// signal that finds another one waiting counts as delivered.
pub fn notify(sender: &Sender<()>) -> (alive: bool) {
    connected(try_signal(sender))
}

/// The items of `items` whose signal in `signals` found a receiver, in
/// order.
pub open spec fn spec_kept<A>(items: Seq<A>, signals: Seq<Signal>) -> Seq<A>
    decreases items.len(),
{
    if items.len() == 0 {
        Seq::empty()
    } else if spec_connected(signals[0]) {
        seq![items[0]] + spec_kept(items.skip(1), signals.skip(1))
    } else {
        spec_kept(items.skip(1), signals.skip(1))
    }
}

/// Removes from `senders` every sender whose signal in `signals` found no
/// receiver, and tells whether any sender is left.
pub fn evict_closed<A>(senders: &mut Vec<A>, signals: &Vec<Signal>) -> (any_left: bool)
    requires
        signals@.len() == old(senders)@.len(),
    ensures
        final(senders)@ == spec_kept(old(senders)@, signals@),
        any_left == (final(senders)@.len() > 0),
{
    let ghost before = senders@;
    let mut idx: usize = senders.len();
    proof {
        assert(before.skip(idx as int) =~= Seq::<A>::empty());
        assert(senders@ =~= before.take(idx as int) + spec_kept(
            before.skip(idx as int),
            signals@.skip(idx as int),
        ));
    }
    while idx > 0
        invariant
            idx <= before.len(),
            signals@.len() == before.len(),
            senders@ == before.take(idx as int) + spec_kept(
                before.skip(idx as int),
                signals@.skip(idx as int),
            ),
        decreases idx,
    {
        idx = idx - 1;
        let ghost tail = spec_kept(before.skip(idx + 1), signals@.skip(idx + 1));
        proof {
            assert(before.skip(idx as int).skip(1) =~= before.skip(idx + 1));
            assert(signals@.skip(idx as int).skip(1) =~= signals@.skip(idx + 1));
            assert(before.take(idx + 1) =~= before.take(idx as int) + seq![before[idx as int]]);
        }
        if !connected(signals[idx]) {
            senders.remove(idx);
            proof {
                assert(senders@ =~= before.take(idx as int) + tail);
            }
        } else {
            proof {
                assert(senders@ =~= before.take(idx as int) + (seq![before[idx as int]] + tail));
            }
        }
    }
    proof {
        assert(before.skip(0) =~= before);
        assert(signals@.skip(0) =~= signals@);
        assert(senders@ =~= spec_kept(before, signals@));
    }
    senders.len() > 0
}

/// Signals the receiver of every sender in `senders`, removes the senders
/// whose receiver is gone, and tells whether any sender is left. Which
/// receivers are gone is for the channels to say: the senders that are left
/// are those that some run of outcomes, one for each sender, keeps.
pub fn notify_all(senders: &mut Vec<Sender<()>>) -> (any_left: bool)
    ensures
        exists|signals: Seq<Signal>|
            signals.len() == old(senders)@.len() && final(senders)@ == #[trigger] spec_kept(
                old(senders)@,
                signals,
            ),
        any_left == (final(senders)@.len() > 0),
{
    let mut signals: Vec<Signal> = Vec::new();
    let mut idx: usize = 0;
    while idx < senders.len()
        invariant
            idx <= senders.len(),
            signals@.len() == idx,
            senders@ == old(senders)@,
        decreases senders.len() - idx,
    {
        signals.push(try_signal(&senders[idx]));
        idx = idx + 1;
    }
    evict_closed(senders, &signals)
}

} // verus!
