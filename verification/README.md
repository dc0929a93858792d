# oxmera_tensor

The layout algebra of a strided-tensor framework, verified with Verus:
shapes and strides, zero-copy views (permute, narrow, broadcast,
unsqueeze, reshape), NumPy broadcasting, logical-order traversal, the
plans the numeric kernels run (row plans, reduction groups, matrix
products and their batch lowering, scatter-add rows, Einstein-summation
plans), the backend registry, the order of a backward pass over the
autograd tape, and the exercise-ladder harness's decisions.

## Layout

- `src/` — the verified library. Every public function states its result
  in `ensures`; laws that relate several functions are public proof
  functions named `law_*`.
- `tests/` — scenario tests run against the compiled library.
- `app/` — the unverified runtime around it: float kernels, the dynamic
  tensor with its tape and gradient rules, the process-wide backend
  registry, operator overloading, and the harness binary (manifest I/O
  and `cargo` processes).
