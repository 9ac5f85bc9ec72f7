# apogee

The integer and text logic of a spacecraft simulation library, verified with
Verus, and the floating-point models around it.

## Layout

- `src/` — the verified library; Verus proves each function against its
  contract:
  - `text`: whitespace, splitting, trimming, `str::parse` integer semantics
    and decimal formatting, stated over `Seq<char>`;
  - `decimal`: number literals as `f64::from_str` reads them, and the
    whole number that rounding their nearest binary64 value gives;
  - `leap_seconds`: the IERS / NAIF leap-second table parser and the
    TAI−UTC lookup, with the sortedness invariant and the lookup law;
  - `daf`: the DAF file record of SPICE kernels (byte-order detection,
    integer and text fields), and the integer layout of the summary
    records, segment data arrays, Type 13 directories and Chebyshev
    records;
  - `state_machine`: the flight-mode transition function and its laws;
  - `cache`: the LRU ephemeris cache, modelled as a sequence ordered from
    least to most recently used, with its laws;
  - `ephemeris`: the body list of a kernel (sorted, deduplicated, named);
  - `gravity`, `eop`: the gravity-field and EOP text formats, from the
    file's bytes (gzip-compressed ones through `flate2`) or text to the
    checked fields of each line (floating-point values are handed back as
    text);
  - `time`, `celestial`, `frames`, `aero`, `error`: small value types and
    helpers.
- `tests/` — executable tests of the library.
- `app/` — ordinary Rust around the library: file I/O, time-scale
  conversions with `hifitime`, and the floating-point models (JB2008
  density, drag and radiation pressure, spherical-harmonics gravity,
  precession–nutation and frame rotations, Runge–Kutta integrators,
  attitude control and estimation, SPK segment evaluation). Quantities there
  are plain SI `f64` values.
