# metro_speedrun

Graphs of subway networks built from Wikidata records, and the search for
the shortest way to ride every line of a network, as a library verified with
Verus, and a command-line program around it.

Layout:

- `src/queries.rs`: entities, lines, stations, connections and the data of a
  network; where fetched query results are cached.
- `src/network.rs`: the station graph, the stripping of line ends, and the
  line graph of transitions.
- `src/graph.rs`: how the library sees `petgraph` graphs and their drawings.
- `src/traversals.rs`: the exhaustive depth-first and iterative-deepening
  searches.
- `src/scip.rs`: the integer program of riding every line, and the route of
  a solution.
- `src/glpk.rs`: the data of the GLPK model and where its solutions are
  cached.
- `src/solution.rs`: reading back the arcs of a route.
- `src/dot.rs`: the Graphviz drawings of the networks, their labels and
  attributes.
- `src/cache.rs`, `src/text.rs`, `src/lemmas.rs`: fingerprints, text and
  sequence facts.
- `app/`: the program: fetching, writing the drawings, running the solvers.
- `tests/`: tests of the library.

The program expects the SPARQL queries under `queries/` and the GLPK model
`metro.mod` in its working directory.
