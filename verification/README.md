# ternary_reassembly

Message fragment reassembly where each fragment's status is ternary:
`+1` complete, `0` pending, `-1` missing. The library tracks fragments per
message, reports gaps and forward progress, expires messages past their time
to live, and keeps reassembly statistics. The functions of `src/` carry
contracts checked by Verus, except three small wrappers in `src/time.rs` around
the standard clock (`Instant::now`, `Instant::elapsed`, `Duration::as_nanos`),
whose contracts are trusted.

Layout:

- `src/time.rs`: spans of time in nanoseconds, and the monotonic clock.
- `src/fragment.rs`: fragments, their status, and what is said of a sequence of them.
- `src/message.rs`: one message under reassembly.
- `src/buffer.rs`: the fragment buffer over many messages, expiry and statistics.
- `src/laws.rs`: properties of the library as a whole, proved.
- `app/lib.rs`: conversion to and from `std::time::Duration`, and the completion rate as a float.

Times inside a message are measured from the moment the message was created.
Operations that need the time read the clock themselves; each has a variant
(`mark_complete_at`, `mark_missing_at`, `is_expired_after`,
`expire_with_elapsed`) that takes the time as an argument and is specified
exactly.
