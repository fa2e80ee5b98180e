# ddot

An image-manipulation library whose integer logic is verified with Verus,
and a command line around it.

## Layout

- `src/` — the verified library.
  - `image` — the RGBA image model (`Image`, `Color`) and its view as colors.
  - `transform` — nearest-neighbour `resize` and `crop`, with per-byte contracts.
  - `palette` — palette generation: `median_cut` and `octree` are verified
    against exact models of their algorithms; `kmeans` names the generator
    and picks the pixels it clusters and starts from.
  - `dithering` — the nearest-palette-color mapping (`closest_color`,
    `OnlyPalette`) and the names of the other algorithms.
  - `filter`, `filters` — parameter kinds, backend capabilities, parameter
    errors, the type and integer-range check of parameter values, GPU
    shader detection, the WGSL shaders, and the filter registry (adjustment,
    noise, gaussian_blur, kawase_blur) with its lookups by name.
  - `backend` — the choice between the CPU and the GPU for a filter step.
  - `dispatch` — the sizes of a GPU run: padded parameter bytes, pixel
    buffer size and workgroup counts.
  - `naming` — `UpperCamelCase` to `snake_case`.
  - `paths` — the default output path of the command line.
- `tests/` — tests of the library.
- `app/` — the `ddot` command line (`list`, `schema`, `apply`), the wgpu
  backend, and everything that computes in floating point: the adjustment,
  noise, Gaussian and Kawase blur filters, the floating-point parameter
  bounds, k-means, the error-diffusion and
  threshold dithers, HSL conversion and grayscale.
