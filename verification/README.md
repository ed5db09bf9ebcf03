# wiz_packets

The logic of a packet logger for Wizard101, verified with Verus, and the programs around it.

A hook inside the game captures messages before they are encrypted and after they are
decrypted, and the traffic of the sockets. It writes its captures to a named pipe. A viewer
reads them, takes the KINP frames in them apart, decodes DML messages by the schemas in the
game's archive, and shows them.

## The library

| Module | What it is about |
|--------|------------------|
| `bytes`, `text`, `clock` | numbers in bytes, text, and the time of a capture |
| `kinp` | frames in a byte stream, and the messages in them |
| `dml` | the fields of a message, by schema or as far as they are text |
| `schema`, `xml`, `wad` | schema documents, XML, and the archive that holds them |
| `pipe` | what goes over the pipe, and both its ends |
| `packet_log`, `display`, `session` | the list of packets, how it is shown, and the session |
| `game_hooks`, `detour` | captures inside the game, and the detours that lead to them |
| `hook`, `injector` | captures at the sockets, and loading the hook |
| `iat`, `iat_memory` | walking import tables, and what a walk does to memory |

Where the work is reading memory, files or a pipe, the library decides what to read next and
what to make of it, and the caller reads. Each module ends with its laws: public proof
functions that say what holds of the module as a whole.

What is taken on trust is marked in the source: the calls into `chrono`, `flate2` and
`quick_xml`, and four functions of the standard library. The comment above each says what is
claimed of it.

## The programs

`app/` holds the window, the files, the pipe's two ends, and what runs inside the game. It needs
Windows.
