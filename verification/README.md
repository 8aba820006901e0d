# aspx

Verified control side of an advanced spectral extension (A-SPX) decoder: the part that decides what the signal tools do, without a single sample.

- `src/` is the library. `tables`, `bands`, `patches` and `frames` derive the tables and intervals of a configuration; `reader`, `huffman`, `codebooks`, `syntax`, `payload` and `element` parse an element bit by bit; `envelope`, `binary32` and `dequant` turn its differences into linear scale factors; `hfgen`, `hfgain`, `preflatten` and `qmf` plan what the signal tools index; `pipeline` plans whole frames; `reach` observes which branches a stream takes.
- Linear scale factors are bit patterns of single-precision numbers. `binary32` states their rounding over the integers.
- `tests/` runs the library on concrete values.
- `app/` computes with samples, along the plans of the library. The prototype window and the remaining signal tools are supplied by its user.
