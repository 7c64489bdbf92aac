# Compactor

Compactor is a small, adapter-driven URL redirection service: a request's
public URL becomes a canonical lookup key, a redirect source resolves the key
to a definition, the service answers with the redirect, and an event sink
records what happened.

The logic lives in `src/` as a library whose behaviour is stated in `requires`
/ `ensures` contracts and proved by Verus:

- `redirect`, `spelling`: canonical URLs, redirect IDs, statuses and response headers;
- `source`: validation of redirect records and the JSON redirect source;
- `cache`: the redirect cache (freshness, refresh in flight, coalesced cold
  loads, least-recently-used eviction);
- `forwarding`, `headers`, `ip`: proxy trust, `Forwarded` / `X-Forwarded-*`
  parsing and bounded header capture;
- `service`: request description, lookup planning, results and responses;
- `adapter`: HTTP endpoint settings and the decisions of the HTTP adapters;
- `config`: configuration from environment settings;
- `fields`, `web_url`, `text`: header syntax, URLs and text helpers.

`app/` is the executable around it: the Tokio/axum server, the async runtime
around the cache, file and network I/O, and the serialized forms of records and
events.
