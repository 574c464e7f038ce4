//! Wire formats of the packets exchanged with the Quantum LT mixer over
//! USB, and the packet sequence that brings it into its working state.
//!
//! - `wire`: little-endian encodings and buffer operations.
//! - `packet`: commands, sub-commands, packets and the packet builder.
//! - `payload`: the `Pari`, `Mprm` and `QUSt` payload formats.
//! - `init`: the initialisation packets.
//! - `device`: the USB ids, interface and endpoint of the mixer.
pub mod wire;
pub mod packet;
pub mod payload;
pub mod init;
pub mod device;

pub use packet::{CMD, SUBCMD, Packet, PacketBuilder};
pub use payload::mprm::{Mixer, Mprm};
pub use payload::pari::Pari;
pub use payload::qust::{Meter, QUSt};
pub use init::init_packets;
