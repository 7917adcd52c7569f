# ypir

The client of the YPIR single-server private information retrieval protocol,
with its wire formats, its matrix kernels and the cache of a server's
precomputed values, written and proved in Verus.

## Layout

- `src/` is the library. Every function states what it returns, and Verus
  proves it.
  - `params`, `params_json`, `constants`: parameter sets and fixed seeds.
  - `arith`, `bits`, `text`, `poly`, `ring`, `aligned`: numbers, packed bits,
    texts, polynomials and buffers.
  - `spiral`: calls into the ring arithmetic crate and the ChaCha20 generator.
    Each says what is believed of the crate. The cumulative tables of the noise,
    which the crate computes in floating point, are values that the keys and the
    samples are stated over.
  - `lwe`, `client`, `query`, `double_query`: keys, samples and queries of the
    one-level and the two-level scheme.
  - `modulus_switch`, `pir_client`, `double_answer`: answers on the wire and
    their decoding.
  - `kernel`: the batched products that answer a query.
  - `serialize`, `to_bytes`, `cache`, `cache_aligned`, `offline`,
    `offline_bytes`, `offline_size`, `pt_iter`: byte forms, the cache format and
    the elements of a database file.
  - `scheme`, `noise_analysis`: trial runs and the numbers of the noise model.
  - `key_laws`, `query_laws`, `answer_laws`, `double_laws`, `cache_laws`,
    `byte_laws`: what holds of keys, queries, answers, caches and byte forms as
    a whole.
- `tests/` runs the library with the outside crates linked.
- `app/` is the `analyze-sp` program, with the floating-point noise model, file
  and thread handling around the library.

## What is proved, in short

A query for a row, multiplied by a column of the database and unmasked, holds
the entry of that row; an answer that holds a row decodes to it as long as the
noise stays inside the window that the parameters leave; what was packed,
switched, serialised or cached comes back, exactly or within the stated
rounding; and a cache that was cut or altered in its header is refused.
