//! The unbounded channels that carry the gray queue and the handles of
//! threads that registered while marking was under way.
//!
//! The channels are `crossbeam_channel` channels of `usize`. What a channel
//! holds is named by [`chan_pending`]; the three calls the runtime makes are
//! wrapped below with contracts that are believed, not proved.

use vstd::prelude::*;

verus! {

/// Trusted: `crossbeam_channel::Sender`, declared so that it can stand in
/// fields and signatures. Verus sees nothing inside it.
#[verifier::external_type_specification]
#[verifier::external_body]
#[verifier::reject_recursive_types(T)]
pub struct ExSender<T>(crossbeam_channel::Sender<T>);

/// Trusted: `crossbeam_channel::Receiver`, declared in the same way.
#[verifier::external_type_specification]
#[verifier::external_body]
#[verifier::reject_recursive_types(T)]
pub struct ExReceiver<T>(crossbeam_channel::Receiver<T>);

/// The messages sent into the channel and not yet received, oldest first.
pub uninterp spec fn chan_pending(rx: crossbeam_channel::Receiver<usize>) -> Seq<usize>;

/// Whether `tx` and `rx` are the two ends of one channel.
pub uninterp spec fn chan_linked(
    tx: crossbeam_channel::Sender<usize>,
    rx: crossbeam_channel::Receiver<usize>,
) -> bool;

/// Trusted: `crossbeam_channel::unbounded`. Claims that the two ends belong
/// together and that the new channel holds no message.
#[verifier::external_body]
pub(crate) fn chan_unbounded() -> (ends: (
    crossbeam_channel::Sender<usize>,
    crossbeam_channel::Receiver<usize>,
))
    ensures
        chan_linked(ends.0, ends.1),
        chan_pending(ends.1).len() == 0,
{
    crossbeam_channel::unbounded()
}

/// Trusted: `crossbeam_channel::Sender::send` on an unbounded channel whose
/// receiving end is `rx`. Claims that the message is appended behind those
/// already pending. The call cannot fail here: it fails only once every
/// receiver is gone, and `rx` is one.
#[verifier::external_body]
pub(crate) fn chan_send(
    tx: &crossbeam_channel::Sender<usize>,
    rx: &mut crossbeam_channel::Receiver<usize>,
    msg: usize,
)
    requires
        chan_linked(*tx, *old(rx)),
    ensures
        chan_linked(*tx, *final(rx)),
        chan_pending(*final(rx)) == chan_pending(*old(rx)).push(msg),
{
    let _ = tx.send(msg);
}

/// Trusted: `crossbeam_channel::Receiver::try_recv` on an unbounded channel
/// whose sending end is `tx`. Claims that the oldest pending message, if
/// there is one, is taken out and returned, and that `None` comes back
/// exactly when nothing is pending.
#[verifier::external_body]
pub(crate) fn chan_try_recv(
    tx: &crossbeam_channel::Sender<usize>,
    rx: &mut crossbeam_channel::Receiver<usize>,
) -> (msg: Option<usize>)
    requires
        chan_linked(*tx, *old(rx)),
    ensures
        chan_linked(*tx, *final(rx)),
        msg is Some <==> chan_pending(*old(rx)).len() > 0,
        msg is Some ==> msg->0 == chan_pending(*old(rx))[0],
        msg is Some ==> chan_pending(*final(rx)) == chan_pending(*old(rx)).skip(1),
        msg is None ==> chan_pending(*final(rx)) == chan_pending(*old(rx)),
{
    rx.try_recv().ok()
}

} // verus!
