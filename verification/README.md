# yang-push-key

Derives deterministic message broker keys (and topic names) from YANG Push
on-change notifications (RFC 8641), in three phases:

1. `phase1` — a subtree filter (XML) becomes an XPath union, one branch per
   selected node, content matches turned into predicates.
2. `phase2` — each XPath branch, resolved to its schema node, becomes a key
   template with `%s` placeholders and the extractions that fill them.
3. `phase3` — a notification data tree and the templates give the
   line-delimited message key: node name, subscription ID, and the sorted,
   deduplicated concrete XPaths.

`topic` maps templates to topic names, `xpath` holds the XPath utilities, and
`cli` the parts of the command line that are not I/O.

## Layout

- `src/` — the library, with its contracts and proofs.  Functions state
  their results over `Seq<char>` views; where a result goes through an
  outside call (XML tokenizing by `quick_xml`, behind a few trusted wrappers
  in `phase1`), the contract speaks of that call's named result.  The laws
  that relate functions are the `law_*` proof functions.
- `tests/` — the library's tests.
- `app/` — the command-line program: argument parsing (`clap`), file and
  standard input, the libyang schema context (`yang4`), whose schema lookups
  and data parsing are handed to `derive_templates_with` and
  `produce_message_key_from` as closures that give the library's plain
  types, and JSON output (`serde`).
