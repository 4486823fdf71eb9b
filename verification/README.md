# fah_rules

The rule engine of an ad-blocking DNS resolver and proxy, as a verified
library: rule-list parsers (adblock, hosts, plain domain lists, with format
detection), the compiled domain-tier matcher with its policy masks and
per-client scopes, the URL tier with its wildcard matcher and token index,
the interception document compiler, and the decisions of the list lifecycle
(refresh schedule, the refusal gate for a bad download, compiling the
enabled lists).

- `src/` — the library, written in Verus and proved against its contracts;
  the few functions without one only bump or read a shared counter.
  `url_keys.rs` states which index keys a URL rule offers and proves that a
  rule matching a URL is reached through them; `url_matcher.rs` states the
  work each match and each lookup spends, says exactly when a lookup's
  allowance runs out, and proves that otherwise the index decides as a scan
  of every rule would; `table.rs` holds the
  open-addressing invariant the domain tier relies on; `policy.rs` holds the
  policies' list selections and the visibility mask each list gets.
- `tests/` — tests over the library's public API.
- `app/` — the I/O around it: list downloads and the on-disk cache, the
  refresh scheduler, the shared state a running server swaps atomically, and
  the serde and error-trait copies of the library's error types.
