# fly_sim_core

The decisions of a quadrotor simulator, verified with Verus: what touches what, which sensor reading
counts, which motors take part, when a scenario has passed.

Floating-point arithmetic stays outside the verified library. Numbers enter it as bit patterns
(`ieee::Float32`, `ieee::Float64`); the library orders, bounds and selects them, and its contracts
speak of their values. Sums, roots and sines are computed around it and handed in.

- `src/` is the verified library.
  - `ieee`: numbers as bit patterns, their order and their bounds.
  - `rng`: the two generators of reproducible noise.
  - `scan`, `text`: least, greatest and picked entries, splitting and trimming.
  - `number`: numbers as decimal text, written and read to the nearest.
  - `obstacle`, `contact`, `toy_world`, `plant`: shapes, rays, contacts, bodies and frames.
  - `allocation`, `controller`: motors, modes, arming, outages and evasion.
  - `sensor`, `ranger`, `wind`: faults, delays, rays, and the parts of the wind.
  - `maneuver`, `trajectory`, `csv`: prescribed motion and its files.
  - `metrics`, `multi`, `sim`, `mavlink`, `render`: errors, fleets, scenarios, telemetry, pictures.
- `tests/` runs the library on concrete values.
- `app/` is the simulator around the library: floating point, the flight core and the physics engine.
  Everything that it takes from those two stands in `app/flight_core.rs`.
