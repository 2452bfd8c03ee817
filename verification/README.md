# lean-checker

Re-checks the declarations of imported Lean 4 modules with an independent kernel.

The library under `src/` turns the constants of an imported environment into a
finished environment that a kernel can check. All of it is verified with Verus.

| module | what it does |
| --- | --- |
| `tree` | names, levels, expressions and declarations as mathematical trees, which the contracts speak of |
| `hash`, `table`, `node`, `dag` | the hash-consed term graph: equal terms have equal pointers |
| `bignat` | natural numbers of any size |
| `env`, `builder` | declarations, finished environments, and how they are built |
| `heap`, `decode` | runtime objects as plain values, and what they stand for |
| `parts` | what terms are made of, and what a graph gained |
| `walk` | walks objects into the term graph |
| `snapshot`, `key`, `units` | the constants, and how mutual blocks are found |
| `graph`, `order` | the order of submission: dependencies first |
| `declare`, `emit` | from units to submitted declarations |
| `check` | the whole way from constants to a finished environment |
| `report` | verdicts, summaries and messages |

`app/` is the program around it: the Lean runtime, the command line, the kernel.
Proof functions whose names start with `law_` state what holds of the library as a
whole. What is believed without proof is marked `Trusted` in `bignat` and `heap`.
