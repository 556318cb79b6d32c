# DiskScour

A disk-usage analyzer for developer machines. It scans a folder, shows what takes the
space, and moves regenerable build caches to the Trash: from a window, from the
terminal, and for coding agents over MCP.

The library under `src/` holds everything that is decided or computed. Each function
states in its contract what it returns, and Verus proves it. The program under `app/`
asks the file system and the system, draws the window, and does what the library says.

## The library

| Modules | What they hold |
| --- | --- |
| `text`, `path`, `order`, `forest`, `util`, `codec` | strings, paths, stable sorting, forests, sums and sizes, bytes |
| `scan`, `removal`, `browse` | the size tree: totals, taking nodes out, finding nodes |
| `builder`, `walk`, `bulkstat` | building a tree from a walk, and what the walk decides |
| `index`, `format`, `roundtrip` | the directory-granular index and its file format |
| `fsevents`, `engine` | what changed, and how much of a scan can be skipped |
| `rules`, `caches` | recognising regenerable caches |
| `live`, `cleanup` | what is in use, and the guards on every deletion |
| `report`, `cli`, `summary` | what the terminal commands print |
| `json`, `mcp`, `tools`, `tool_calls` | the MCP server |
| `sessions`, `registration` | how the server is wired into agents |
| `window`, `panels` | the state of the window, and what its panels show |
| `builder_laws`, `agreement`, `caches_laws` | what holds of scans, refreshes and caches as a whole |

Promises that span functions are proof functions whose names start with `law_`. Some
of them:

- an index is read back as it was written, and a truncated one is never read;
- a refresh in which nothing changed lands on the totals of the scan it builds on;
- deleting a cache frees the bytes that are reported for it: those that no other file
  shares;
- a running scan can be browsed: snapshots only grow, and end in the finished tree;
- nothing is served from the index unless the event history is complete;
- no guard on a deletion is lifted by any flag, but for the one on recognised caches;
- nothing is trashed without a confirmation, and a preview never claims a deletion.

What is believed without proof stands in `json` (`serde_json`), and next to its use
for a few functions of the standard library.

## The program

`diskscour status` looks at the configuration of the agent that keeps its servers in a
file of the home directory named after its command, and asks the command for the name of
the product. `DISKSCOUR_AGENT` names the command of another agent, and
`DISKSCOUR_AGENT_NAME` how it is shown.
