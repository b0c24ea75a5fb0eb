# cp_library

A contest-programming library whose behaviour is stated in contracts and
proved with Verus.

| module | contents |
| --- | --- |
| `algorithm::lis` | length of the longest strictly increasing subsequence |
| `data_structure::implicit_treap` | sequence with insertion, removal and range reversal |
| `data_structure::lazy_reversible_rbst` | sequence with range products, range actions and range reversal |
| `data_structure::monoid_actions` | ready-made operation sets for the RBST (range add, affine maps, text concatenation) |
| `data_structure::weighted_dsu` | union-find with weights relative to the root |
| `graph::dijkstra` | single-source shortest paths with saturating costs |
| `graph::functional_graph` | the cycles of a functional graph |
| `grid` | 4- and 8-neighbourhoods inside a grid |
| `math::base_conversion` | integers of any length between bases 2 to 36 |
| `math::combinations` | factorial tables, `nCr`, `nPr`, `nHr` modulo a prime |
| `math::numeric` | `gcd` and `lcm` on the primitive integers |
| `math::prime_enumeration` | sieve of Eratosthenes |
| `math::prime_factorization` | Miller-Rabin and Pollard's rho factorization of `u64` |
| `utils` | `Yes` / `No` answers |

`src/` is the verified library, `tests/` runs it, and `app/` holds the
printing macros `yes_no!` and `yes_no_custom!`.
