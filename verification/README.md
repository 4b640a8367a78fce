# Raven Power

Battery management for Raven Linux: live telemetry, runtime estimates that
learn from how the battery really drains, and power-profile switching.

`src/` is the library, verified with Verus. It holds everything that is decided
or computed: reading the kernel's files, the drain model and its estimates,
scoring past estimates, profile switching, what the pages say and what the
charts show. `app/` is the GTK program around it, which does the reading,
writing, running and drawing.

Measured quantities are binary64 numbers, carried by their bits. The modules
`quantity`, `binary`, `rounding` and `arithmetic` define what a sum, product or
quotient of two of them is, the nearest quantity to the exact result, and
compute it; `precision` and `margin` bound how far off that is. The one thing
the model takes from outside is the table of weights by which recent minutes
count (`window::Decay`), since powers of a fraction cannot be had exactly.

What is stated:

- every function's result, in its `ensures`, but for that of `clock::now`,
  which is whatever the clock says;
- laws over several functions, as public proof functions beside them, such as
  `history::no_history_leaves_the_instant_reading`,
  `estimate::full_trust_ignores_the_instant_reading`,
  `pace::rates_lie_between_the_steps`, `positive::observed_rates_are_positive`,
  `window::older_steps_have_no_influence`, `between::blends_lie_between`,
  `straight::unshaped_walks_are_as_long`,
  `demo_day::made_up_days_run_their_course`,
  `session::sessions_partition_the_history` and
  `switch::the_daemon_stays_the_only_writer`.

The only things taken on trust are the system clock's two calls in `clock`.
