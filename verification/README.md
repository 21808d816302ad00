# tiri_layout

The container tree of a tiling window manager in the manner of i3 and sway, written in Verus: one
workspace with its tiled side, its floating groups, its focus order and the commands on them.

`src/` is the library. Its model is `tree::Tree`, a workspace as a value; every command of
`arena::ContainerArena` states the tree it leaves as a function of the tree it found, and that the
tree stays well-formed. `windows` states which windows a tree holds: only what brings a window in
or takes one out changes them. It also states what it is for a node to hang loose and for the
focus, the selection and the fullscreen owner to be in the tree; the commands keep both.

| modules | what they are about |
| --- | --- |
| `axis`, `measure`, `seat`, `tile`, `node`, `cache`, `store` | layouts and directions, doubles by bit pattern, the focus order, windows, nodes |
| `tree`, `arena`, `walk`, `paths`, `links`, `windows` | the tree as a value, the arena that holds it, reading and elementary changes |
| `focus`, `cleanup`, `movement`, `split`, `swap`, `columns` | commands on the tiled side |
| `insert`, `detach`, `subtree`, `column` | windows and subtrees coming and going |
| `floats`, `space`, `arrival`, `steering`, `upkeep`, `scene`, `fitting`, `sides`, `restore` | floating groups |
| `leafcache`, `arrange`, `commit`, `fractions`, `resize`, `preview` | arranging and resizing |
| `marks`, `tabs`, `project`, `query`, `report`, `invariants` | what is asked of a tree |
| `ring`, `grab` | the focus ring and the drag that switches workspaces |

Doubles are held by their bit patterns. The library compares them; it does no arithmetic on them.
Where a command depends on a computed box, share or distance, it takes the value as an argument,
and `app/` computes it.

`tests/` runs the library on concrete trees.
