# context_tabs

Context tabs group the workspaces of a client by one metadata token. The library tracks which
contexts the client knows, which tab is active, moves that are on their way to a server, and a
backup of each workspace's context, and it lays out the row of tabs. Its behaviour is stated in
contracts that Verus proves.

- `contexts` holds the state and its operations.
- `model` says what the state is, and what each operation makes of it.
- `laws`, `snapshot_laws` and `preferences_laws` state what holds across operations.
- `tab_row` lays out the tab row, and `width` measures and cuts text.
- `text`, `order`, `name_set` and `table` hold names, their order, and the collections.
- `protocol` and `preferences` hold what comes from endpoints and what outlives the client.

The width of text is that of the crate `unicode-width`. The contracts take it as a function of the
text, and as the number of characters for printable ASCII and the ellipsis.
