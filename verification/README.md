# gtboost

Gradient boosted decision trees: regression, binary, Poisson and multiclass
models with categorical encodings, cyclic trees, corrective refits, expert
leaves and early stopping.

`src/` is the library. It decides what is trained and how a prediction is made
up: which rows, features and pairs are sampled, which encodings are built and
kept, how rows are split into folds, blocks and buckets, when a leaf, a tree, a
block or a round is accepted, when training ends, what a prediction adds up,
what a request is refused for. Every function of it is verified with Verus
against its contract.

A machine float is carried as its bit pattern (`num::Num`), and ordered,
clamped and tested in integers. The sums and products that a decision looks at
are arguments of the function that decides.

`app/` is ordinary Rust around the library: the floating point arithmetic, the
Python classes, files, and the trait of the engine that grows trees.

`tests/` runs the library on concrete values.

## Modules of `src/`

| module | what it holds |
| --- | --- |
| `num`, `bits` | numbers as bit patterns and the constants among them |
| `order`, `select`, `tally`, `bitset`, `hashing` | rankings, filters, counts, bit sets, hash mixing |
| `random` | the random generator: what holds of every draw |
| `sampling`, `goss`, `masks`, `combos` | samples of rows and features |
| `groups`, `ctr`, `ctr_select`, `ctr_tables`, `ctr_build`, `evidence`, `evidence_tables` | categories: groups, folds, encodings, evidence features |
| `prior`, `prior_cut` | the prior over single columns |
| `interactions`, `columns`, `dataset` | derived features and the training matrix |
| `tree`, `leaves`, `slots`, `tree_edit` | binned data, trees, the walk to a leaf |
| `gradients`, `robust`, `adjust`, `pressure` | what losses and leaf values branch on |
| `expert`, `expert_plan` | expert leaves |
| `guided` | lookups on pairs of categories |
| `corrective` | refits of blocks of trees |
| `early_stop`, `rounds`, `multiclass`, `fit`, `course` | the course of training |
| `model`, `predict`, `report`, `task`, `errors` | the model, prediction plans, reports, refusals |
