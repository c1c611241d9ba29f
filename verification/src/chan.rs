//! The per-node inbound channels, behind trusted wrappers.  What a drain
//! returns depends on concurrent senders, so no contract pins the
//! content: the merge logic is verified for every batch it may hand back.
use vstd::prelude::*;

use crate::ids::Packet;

verus! {

#[verifier::external_type_specification]
#[verifier::external_body]
#[verifier::reject_recursive_types(T)]
pub struct ExSender<T>(crossbeam_channel::Sender<T>);

#[verifier::external_type_specification]
#[verifier::external_body]
#[verifier::reject_recursive_types(T)]
pub struct ExReceiver<T>(crossbeam_channel::Receiver<T>);

/// Relies on crossbeam_channel::unbounded: creates a connected
/// sender/receiver pair with no capacity bound.
#[verifier::external_body]
pub fn new_channel() -> (crossbeam_channel::Sender<Packet>, crossbeam_channel::Receiver<Packet>) {
    crossbeam_channel::unbounded()
}

/// Relies on crossbeam_channel::Sender::send: on an unbounded channel it
/// never blocks, and it fails exactly when the receiving half was
/// dropped.  Returns whether the message was accepted; nothing more can
/// be promised, since the outcome depends on the receiver's state.
#[verifier::external_body]
pub fn send_packet(sender: &crossbeam_channel::Sender<Packet>, data: Packet) -> bool {
    sender.send(data).is_ok()
}

/// Relies on crossbeam_channel::Receiver::try_iter: takes the messages
/// buffered at the moment of the call, without ever blocking.
#[verifier::external_body]
pub fn drain_packets(receiver: &crossbeam_channel::Receiver<Packet>) -> Vec<Packet> {
    receiver.try_iter().collect()
}

/// Relies on crossbeam_channel::Receiver::len: how many messages are
/// buffered at the moment of the call.
#[verifier::external_body]
pub fn inbox_len(receiver: &crossbeam_channel::Receiver<Packet>) -> usize {
    receiver.len()
}

} // verus!
