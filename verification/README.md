# amure-db

A knowledge-graph store for retrieval: hypothesis nodes (statement, abstract,
discussion, status, experiments, optional embedding) joined by directed edges of four
kinds (reference, superset, subset, orthogonal), each drawn for a stated reason.

The library in `src/` is verified with Verus:

| Module | What it holds |
|--------|---------------|
| `node` | nodes, experiments, the text a node is embedded from, the tokenizer |
| `edge` | edges, edge kinds and their reverses |
| `graph` | the graph with its per-node edge index: node and edge CRUD, cascading removal, neighbours, breadth-first walks, subgraphs, summaries, edges drawn with their reverse |
| `edit` | in-place updates of stored nodes: fields, experiments, embeddings |
| `store` | rebuilding a graph from lists of its nodes and edges |
| `reach` | reachability and hop distance, the measure walks are held to |
| `search` | which nodes a search may return, and the status filter |
| `parse` | reading statuses, edge kinds, experiment kinds and verdicts from words |
| `embedding` | what is taken from an embedding service's reply |
| `text`, `index`, `counting` | string, index-list and counting helpers |
| `laws` | properties spanning several operations |

`app/` is the HTTP server around it (axum, listening on 8081): JSON records, saving to and
loading from `data/amure_graph/`, calls to the OpenAI embedding service, and the
floating-point parts of search (cosine similarity, score decay, MMR reranking).
