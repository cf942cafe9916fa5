# rustyai

Machine-learning building blocks in Rust, with the integer logic verified by
Verus.

- `src/` is the verified library: resampling (k-fold, bootstrap variants,
  jackknife, out-of-bag sets), DBSCAN labelling from a neighbourhood relation,
  agglomerative-clustering bookkeeping, majority voting, top-k feature
  selection, one-hot encoding, SMOTE planning, reservoir and stratified
  sampling, a bounded experience-replay buffer, the counters of a
  reduce-on-plateau schedule, the causal attention mask, panel-data layout and
  the confusion matrix. Every public function whose result carries
  information has a contract that states it (the constructors of types without
  fields need none), and the laws that relate several calls are stated as
  proof functions.
- `tests/` runs the library on concrete values.
- `app/` is ordinary Rust around the library: the floating-point estimators
  (trees, forests and gradient boosting, standard and min-max scaling, k-means, mean shift, naive Bayes, k-NN, linear models,
  optimizers, schedules, statistics), `ndarray` conversions, file I/O with
  `bincode`, and the error type with `Display`.
