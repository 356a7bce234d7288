# sparse_solver_validator

A verified library for validating solutions of large, deterministically
generated sparse linear systems. A problem is a short public recipe; its matrix
and right-hand side are compiled from a seed into periodic tables, so that a
validator can evaluate them without scanning rows.

| Modules | Subject |
| --- | --- |
| `problem`, `randomness`, `terms` | recipes, their validation, seeds and digests |
| `generator`, `sampling`, `stream`, `compiled`, `generated`, `matrix` | compiled matrices and right-hand sides |
| `evaluation`, `evaluator`, `mle` | succinct evaluation of multilinear extensions |
| `relation`, `natural`, `binary64`, `solution` | exact Q63.64 relations and solution vectors |
| `canonical`, `bytes`, `text`, `hashing`, `signing` | canonical bytes, digests and signatures |
| `protocol`, `certificate`, `statement`, `artifact`, `service` | challenges, certificates, artifacts and the stateless service |
| `field`, `pcs`, `opening`, `transcript` | the commitment boundary of the exact backend |

Properties that relate several functions are public proof functions, most of
them in the modules named `*_laws`.

`app/` holds what surrounds the library: JSON documents, binary64 evaluation,
error messages, and the calls into commitment schemes and proof backends.
