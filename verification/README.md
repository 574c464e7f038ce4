# quantum_lt

The packet formats of the Quantum LT USB mixer, verified with Verus, and a
small command-line tool that lists mixers and brings one into its working
state.

- `src/wire.rs`: little-endian encodings and buffer operations.
- `src/packet.rs`: commands, sub-commands, `Packet` and `PacketBuilder`;
  encoding, parsing, and the round-trip laws.
- `src/payload/`: the `Pari`, `Mprm` (with `Mixer`) and `QUSt` payloads.
- `src/init.rs`: the initialisation packet sequence.
- `src/device.rs`: the mixer's USB ids, interface and endpoint.
- `app/main.rs`: the command-line tool (USB access through `rusb`,
  arguments through `clap`).

Float levels and meter readings are held as their IEEE-754 bit patterns
(`f32::to_bits`), which is exactly what goes on the wire.
