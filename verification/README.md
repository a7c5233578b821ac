# worldbuilder_engine

The integer core of the Worldbuilder water bake, verified with Verus.

Heights, flows and levels are compared, never added, in the parts that decide where water
goes, so the library takes them as order-keeping `u64` keys (`keys`): a float's key sorts the
way the float does. What stays floating point (metres, areas, trigonometry, the probe
scatter, the record's `f64` words) lives in `app/`, which converts to and from keys and calls
the library.

## src/

- `keys`, `heap`: height keys and the flood queue (lowest level, then ground, then node).
- `graph`: the land graph, symmetric and sorted whatever the directed lists it is built from.
- `flood`: the priority flood; every reached node's spill is the lowest top of any way in.
- `components`, `hollows`: connected groups of equal-key nodes; the hollows a flood leaves and
  the keep verdict on each.
- `drainage`, `links`: "everything drains", checked; following reach and body links.
- `accumulation`: the order flow is handed downstream in.
- `channels`, `reaches`: cutting the channel network into reaches; Strahler orders and
  bifurcation counts.
- `strips`, `rings`, `ponds`: the fine pond search on one strip of cells, the corner walk round
  a hollow's cells, and the strip budget.
- `cuts`: a notch cut down a parent chain or along an explicit path, and parent-chain walks.
- `routing`: where each drop goes once the hollows are judged: the pools on an enclosed
  basin's shore found by flooding the basin anew from its ground below the datum, and the inner
  basins of a hollow too large to keep found by flooding it anew from its floor; lakes laid out
  (a kept hollow flat at its level, one lake per below-datum pocket of an enclosed basin, the
  pools after them, no pool kept on a basin's way out), the tree re-flooded inside each
  enclosed lake and each capped hollow (each flood kept in the routing, so the tree is fixed
  as those floods grew it), receivers (steepest descent, lake parents, outlets,
  sinks) and the cut pass that carries every remaining local minimum out along its parent
  chain.
- `bake`: judging every hollow and pool (an inner basin on its capped hollow's way out is not
  kept), routing, and refusing a routing that does not drain.
- `routing` also holds the lake closure's two moves: opening a fresh basin's outlet (a cut
  up the shore and over the rim, then on down the parent chain) and sealing a closed lake.
- `rewriting`: what is read writes back, word for word, but a zero read from `-0.0`.
- `assemble`: the record folded together: one body per kept lake, reach lines with their links
  on body ids and their freshness, notch lines filtered and split, and the counts.
- `assembly`: numbering kept hollows as bodies, finding reaches by their first node,
  re-pointing links at bodies, marking river nodes and outlet cuts, splitting notch lines,
  counting reaches.
- `hydro`, `words`, `codec`, `record`: the record's types, its integer words, encode and decode,
  and the ground fingerprint (BLAKE2b through the `blake2` crate).
- `extent`: a lake's shore members, its collar and the usable steps between them, and the
  outline points they give each body.
- `lakes`: the lake closure's decisions, pass by pass: which basins open, which close, which
  open lakes are sealed; and which lakes a forced outlet point lies on.
- `counts`: the bake's counts for the record: land, hollows and their fates, closed lakes,
  forced points asked for and landed, capped basins and their inner basins, shore members and
  collar points.
- `crossings`, `kinematics`, `seqs`: smaller pieces and shared counting facts.

## app/

The floating-point edge: metres in and out (`-0.0` and `+0.0` are one height), each node's
steepest lower neighbour by slope, what is measured of each hollow and lake, the flow sums in
the verified order, the lake closure's water balance around the verified outlet and seal
moves, notch grading, the pond keep rule and ordering, each lake's longest usable shore step in
metres, the record's `f64` words, and the probe points.

Not in this crate: the geometry of outlines (projection and simplification), and the fine
search, trace and refinement of channels.

## tests/

Plain Rust tests against the compiled library.
