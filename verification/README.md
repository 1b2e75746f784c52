# md-view

A dark-mode Markdown viewer for one file: it renders GitHub-flavoured
Markdown, reloads on save while keeping the cursor on its block, navigates
with vim motions and visual selection, highlights fenced code with the
`tokyo_custom` palette and draws Mermaid flowcharts and sequence diagrams
natively.

- `src/` is the library, verified with Verus: the document model built from
  comrak's tree, highlighting rows built from syntect's fragments, the TeX
  and Mermaid subsets, flowchart ranks and their laws, the vim state
  machine, the viewer's decisions (segments, painted rows, key map,
  reload) and file-watch batches.
- `app/` is the program around it: the GPUI window and painting, Mermaid
  pixel geometry (floating point), file reading and the debounced watcher.
- `tests/` exercises the library with the real outside crates linked.
