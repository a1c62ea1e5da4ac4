# dataflux_rust

Fast listing of a Google Cloud Storage bucket by dynamic work stealing, and
a compose/download sample, with the logic verified in Verus.

- `src/` is the verified library. The heart of it is `range_splitter`: a
  range `[start, end)` of object names is read as a pair of numbers in the
  base of a sorted alphabet and split into evenly spaced points (big-integer
  arithmetic goes to `num-bigint`). The contracts state the split points
  exactly; proof functions state that they lie strictly inside the range, in
  increasing order, evenly spaced, that a repeated call gives the same
  points, that digit strings read back as the numbers they encode, that
  adding characters to the alphabet does not depend on their order, and
  exactly when a call returns.
- `fast_list` holds the worker's step after each page: which objects it
  keeps, where the next page starts, when the range is done, and how the
  rest of the range is split at one point per idle worker. The contract
  states that the part kept and the parts handed out cover the old range in
  order, without gap or overlap.
- `app/` runs the workers, the queue and the storage calls (`tokio`,
  `async-channel`, `google-cloud-storage`) and offers the Python bindings
  (`pyo3`); every decision it takes comes from the library.
- `tests/` exercise the library on concrete values.
