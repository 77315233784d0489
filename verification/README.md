# hcalc

An artillery firing-solution calculator. Firing positions and fire missions
are named points on a map; for each pair the calculator gives the distance,
the bearing, the charge, and the elevation from the charge's quadratic fit and
from its firing table (linear and three-point interpolation), with the time of
flight.

## Commands

- `a[dd] <name> <coords>`: add a firing position
- `n[ew] <name> <coords>`: add a fire mission
- `e[dit] <name> <coords>`: move an existing fire mission
- `d[elete] <name>`: delete a fire mission
- `l[ist]`: list the fire missions, with distance, bearing, elevation, charge
  and time of flight from every firing position
- `r[eset]`: clear all fire missions and firing positions
- `q[uit]`: exit

A name is a single word (no spaces) or a string in double quotes (which may
hold spaces). Coordinates are two integers separated by a comma, a space, or
both, optionally in parentheses: `500 1000`, `500,1000`, `500, 1000`,
`(500 1000)`, `(500,1000)` and `(500, 1000)` are all the same point.

## Layout

- `src/` — the verified library:
  - `text.rs`: trimming, splitting, delimited fragments, signed decimals;
  - `geometry.rs`: coordinates (reading and writing them), quadrant, distance;
  - `charge.rs`: charges, fits, firing tables and interpolation;
  - `names.rs`: a map from names to values;
  - `state.rs`: the session's positions and missions, the commands that change
    them, and the firing solution;
  - `command.rs`: reading a line typed at the prompt.
- `app/main.rs` — the interactive prompt: reading lines, printing, and the
  floating-point parts (bearing, decimal display of the exact values).
- `tests/` — tests run against the compiled library.

Values the library computes exactly are handed out as integers or fractions:
elevations from the fits in units of 10^-10 mrad, interpolated elevations and
times of flight as `num / den`.
