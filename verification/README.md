# dns-forwarder

A rule-based DNS forwarder whose logic is verified with Verus.

- `src/` is the library. Verus proves its functions against their contracts,
  but for the few that are believed (below).
  - `wire`, `name_laws`: names and numbers in messages.
  - `dns`, `answers`, `lifetime`, `chase`: queries, replies, what responses
    answer, their lifetimes, and the responses to aliases.
  - `trie`, `domain_file`, `whitespace`, `text`, `decimal`, `addr`: domains by
    suffix, the files that list them, and the texts in them.
  - `config`, `rules`, `nft`, `error`: the configuration and its rules.
  - `cache`, `extra_domain`, `forwarder`, `server`: what is kept and learned,
    queries on their way to an upstream, and what is done with a query.
  - `message_laws`, `section_laws`, `chase_laws`, `rules_laws`, `server_laws`:
    what holds across functions.
- `app/` is the program: sockets, files, the `nft` command and logging.
- `tests/` runs the library on concrete messages.

Time is counted in nanoseconds since the start of the program. What the texts of
a configuration stand for on a machine (the contents of files, the addresses,
the elements of nftables sets) is gathered by the program and handed to the
library, which decides what it comes to.

## What is believed

Verus does not read the code of other crates. What the library takes from them
is stated, and not proved:

- the map of `lru` that keeps the responses, through `lru_new`, `lru_put`,
  `lru_peek`, `lru_promote` and `lru_pop` in `cache`. Its contents and its size
  have the names `held` and `limit_of`, and the types `LruCache` and
  `DefaultHasher` are declared;
- `fastrand`, through `random_server` (one of the servers, or none where there
  are none) and `random_id`, of which nothing is claimed, both in `server`;
- `std::str::from_utf8`, through `text_of_bytes` in `wire`;
- `String::push`, in `text`.

## Rules

A local name is answered with its address. A blocked name does not exist
(NXDOMAIN); names under `lan`, `local`, `home.arpa`, `corp` and `internal` are
blocked in every configuration. Other names are answered from the cache, or asked
for at one of the upstreams of their forward rule, or at a default server. Where
the cache is full, the response that was not used for the longest time makes
room. Aliases are followed up to ten deep; their targets follow the same rule for an
hour.
