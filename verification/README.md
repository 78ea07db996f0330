# truehd_atmos

The decisions of a TrueHD / Atmos decoder, written in Verus: framing a byte stream into access
units with an exact count of every one, learning a stream's configuration from its major syncs,
scheduling object metadata to the frame, and assembling blocks with their places on the output and
the input timeline.

Parsing and decoding of access units is the `truehd` crate's. The engine asks for it (`pull`,
`probed`, `decoded` in `src/engine.rs`); `app/` performs it and offers the decoder to C.

| Module | |
| --- | --- |
| `header`, `chain`, `estimate`, `framer` | access units: headers, recovery in front of a major sync, estimates, framing |
| `stream` | presentations, speakers, configuration of a stream |
| `objects` | object metadata: payloads, elements, timed updates |
| `pushes` | which push an access unit began in |
| `events`, `engine_view`, `engine` | the engine: what passes in and out, its mathematical model, its code |
| `api` | answers to calls on a handle |
| `types`, `text` | shared values and messages |
| `framer_laws`, `clean_laws` | what framing promises over whole runs, and of an undamaged stream |
| `object_laws` | what object metadata promises across operations |
| `engine_laws`, `timeline_laws`, `chunking_laws`, `selection_laws`, `replay_laws` | what the engine promises: recovery and counts, places of blocks, input in pieces, the stream description, the same stream after a reset |

Each type has a view (`FramerView`, `ObjectView`, `PushesView`, `EngineView`) with the operations as
functions on it; the executable methods are proved equal to them. Single-precision numbers are
carried by their bit patterns (`types::Single`) and only compared.
