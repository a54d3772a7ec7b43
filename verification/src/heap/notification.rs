//! What a device reports of the messages that wait for it.
use vstd::prelude::*;
use vstd::std_specs::cmp::PartialEqSpecImpl;
use crate::device::IoTDevice;

verus! {

/// How many messages wait at a device.
#[derive(Debug)]
pub struct MessageNotification {
    pub no_messages: u64,
    pub device: IoTDevice,
}

impl MessageNotification {
    /// A notification for `device` with `no_messages` messages.
    pub fn new(device: IoTDevice, no_messages: u64) -> (notification: MessageNotification)
        ensures
            notification.device == device,
            notification.no_messages == no_messages,
    {
        MessageNotification { no_messages, device }
    }
}

impl Clone for MessageNotification {
    /// A clone agrees with the notification it was made from in every field.
    fn clone(&self) -> (copy: MessageNotification)
        ensures
            copy == *self,
    {
        MessageNotification { no_messages: self.no_messages, device: self.device.clone() }
    }
}

impl PartialEq for MessageNotification {
    fn eq(&self, other: &MessageNotification) -> (equal: bool) {
        self.device == other.device && self.no_messages == other.no_messages
    }
}

impl PartialEqSpecImpl for MessageNotification {
    open spec fn obeys_eq_spec() -> bool {
        true
    }

    open spec fn eq_spec(&self, other: &MessageNotification) -> bool {
        self.device.same_identity(other.device) && self.no_messages == other.no_messages
    }
}

} // verus!
