# cosmic_printers

The data model and decision logic of a printer settings service, verified with Verus.

- `src/text.rs` — strings as `Seq<char>`: trimming, ASCII lower-casing, searching,
  splitting, decimal parsing and printing, and the order of strings.
- `src/uri.rs` — endpoint parsing of device URIs, URI prefixes and the normalized URI
  used for identity, and the web page derived from a device URI.
- `src/options.rs` — the option map of a queue, modelled as `Map<Seq<char>, Seq<char>>`.
  It holds the options as a vector of key/value pairs with distinct keys in place of a
  `HashMap<String, String>`: vstd relates a `HashMap` to its map view only for key types
  whose hashing it models (`obeys_key_model`), integers and `bool` among them, `String` not.
- `src/types.rs` — printer entries, device groups, jobs and replies.
- `src/grouping.rs` — device identities and the grouping of queues into physical devices,
  with the laws the grouping keeps.
- `src/queues.rs` — turning what CUPS reports about a queue into a printer entry.
- `src/reported.rs` — the destinations an enumeration reports, kept by id: the latest
  report of an id wins and a removal drops it (a vector with distinct ids stands in for a
  `HashMap<String, _>`, for the reason given above).
- `src/service.rs` — job listing requests, printer lookup, queue metadata, discovered
  devices (their listing order and the queue that adding one creates) and free queue names.

`app/` holds the unverified rest: the serialized wire types, the Varlink client, the server
state and the calls into CUPS and the settings store.
