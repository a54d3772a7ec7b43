//! The record that every container of this crate stores.
use vstd::prelude::*;
use vstd::std_specs::cmp::PartialEqSpecImpl;

verus! {

/// A device record: a numeric identifier, a network address and a path.
///
/// Records are immutable values. Two records are equal under `==` when their
/// identifier and address agree; the path takes no part in identity.
#[derive(Debug)]
pub struct IoTDevice {
    pub numerical_id: u64,
    pub path: String,
    pub address: String,
}

impl IoTDevice {
    /// Builds a record from its three parts.
    pub fn new(id: u64, address: String, path: String) -> (device: IoTDevice)
        ensures
            device.numerical_id == id,
            device.address == address,
            device.path == path,
    {
        IoTDevice { address, numerical_id: id, path }
    }

    /// Identity of a record: same identifier and same address.
    pub open spec fn same_identity(self, other: IoTDevice) -> bool {
        self.numerical_id == other.numerical_id && self.address@ == other.address@
    }
}

impl Clone for IoTDevice {
    /// A clone agrees with the record it was made from in every field.
    fn clone(&self) -> (copy: IoTDevice)
        ensures
            copy == *self,
    {
        IoTDevice {
            numerical_id: self.numerical_id,
            path: self.path.clone(),
            address: self.address.clone(),
        }
    }
}

impl PartialEq for IoTDevice {
    fn eq(&self, other: &IoTDevice) -> (equal: bool) {
        self.numerical_id == other.numerical_id && self.address == other.address
    }
}

impl PartialEqSpecImpl for IoTDevice {
    open spec fn obeys_eq_spec() -> bool {
        true
    }

    open spec fn eq_spec(&self, other: &IoTDevice) -> bool {
        self.same_identity(*other)
    }
}

} // verus!
