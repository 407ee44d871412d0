# coco_console

The logic behind the CoCo console: a web page that shows the conversation graph of an agent as it
grows, and the skills that the agent has. The logic is written in Verus; every function of `src/`
states in its contract what it returns, and the contracts are proved.

- `layout` lays a snapshot of the graph out: ranks, connected parts, crossings, rows, ports and
  routes, and the part of it that a viewport shows.
- `incremental_layout` and `rank_propagation` place nodes one after the other and keep what was
  placed.
- `incremental_build` decides, transaction by transaction, how a generation of the graph is built
  from the journal of branch changes, on top of an earlier generation or from the start.
- `incremental_store` is the frontier of such a build.
- `markdown` and the modules beside it turn markdown into the tree that a page draws.
- `publisher` tells the pages that something has changed.
- `render` decides what the pages show.
- `text`, `numbers`, `ordered`, `sequences`, `sorting` and `arithmetic` are what the others build
  on.

`app/` is the host around the library: the queries against its SQLite database, the asynchronous
loops of a build, and the views.
