//! How the mixer shows itself on the USB bus.
use vstd::prelude::*;

verus! {

/// The mixer's USB vendor id.
pub const VENDOR_ID: u16 = 0x1ed8;

/// The mixer's USB product id.
pub const PRODUCT_ID: u16 = 0x0206;

/// The interface that carries the packets.
pub const IFACE: u8 = 0x05;

/// The bulk endpoint that packets are written to and read from.
pub const EP: u8 = 0x01;

/// The alternate setting of the interface that carries the packets.
pub const ALT_SETTING: u8 = 0x01;

/// Whether a USB device with these ids is a Quantum LT mixer.
pub fn is_quantum_lt(vendor_id: u16, product_id: u16) -> (r: bool)
    ensures
        r == (vendor_id == VENDOR_ID && product_id == PRODUCT_ID),
{
    vendor_id == VENDOR_ID && product_id == PRODUCT_ID
}

} // verus!
