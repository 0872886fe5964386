# TetoScribe

A local-first speech pipeline that turns audio into transcripts with named speakers. A worker sends
audio to a speech recogniser and publishes the segments that come back, a controller matches their
voices against a memory and holds back the segments of unknown speakers, and a brain names the
speakers from what they say.

The decisions of all three stand in `src/` and are verified with Verus: every function there has a
contract, and what holds of several of them together is stated as public proof functions. The
programs in `app/` do the input and output: Redis, Qdrant, WebSockets, the Riva gRPC client and the
floating point part of the voice fingerprints.

| Module | What it holds |
|---|---|
| `text`, `numeric`, `float_bits`, `string_map` | texts, numbers and ordered maps |
| `env` | settings from environment variables |
| `json`, `redis_value` | JSON values and Redis replies, and where a stream message holds a segment |
| `identifier` | identifiers picked at random |
| `protocol` | the messages that the programs exchange |
| `audio`, `timeline` | PCM WAV decoding, chunks, and where a moment stands among the bytes |
| `fingerprint` | what a voice is told by: samples in frames, or the tag of the speaker |
| `riva`, `worker` | requests to the recogniser, segments from its results, archive and live jobs |
| `brain` | naming speakers by what they say, or by an outside command |
| `queue` | holding back, asking the brain, applying its answers, serving live clients |
| `storage` | what is stored of voices and transcripts, and how a voice is recognised |

Outside crates are reached through a few wrappers and specifications, each with a comment that says
what is taken on trust: JSON values of `serde_json` in `json`, random identifiers of `uuid` in
`identifier`, and a handful of text functions of the standard library in `text`.

`app/` is one program with four commands: `process <path>` enqueues a recording, `brain`,
`controller` and `worker` run the services. The gRPC client is compiled with the `riva` feature,
over bindings generated from the Riva definitions.
