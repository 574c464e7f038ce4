//! The payload formats that follow a packet's sub-command.
pub mod mprm;
pub mod pari;
pub mod qust;
