# mosim

A trace-driven simulator of distributed training jobs on a GPU cluster, written and
verified in Verus. It models how the placement of a job's workers and the network that
servers share affect the time until the job is complete.

## Layout

| Path | Purpose |
| --- | --- |
| `src/` | The verified library |
| `tests/` | Its tests, on whole ticks and on floating-point numbers |
| `app/` | The program around it: configuration, files, output, floating point |

The library is generic in its numbers (`src/scalar.rs`). `Ticks`, whole numbers that
saturate, are verified with it. The program runs it on double-precision numbers.

The formulas are the same for every number type. In whole ticks, one with a fraction on the
way loses it: the ratio at which a crowded server serves its jobs is nothing, and so are
their shares; a percentile between the least and the greatest value is the least. Where
fractions matter, use a number type that has them.

## What is proved

Every function of the library has a contract over a mathematical model of the state
(`System` and `Run`), and beyond the contracts:

- `liveness`: a simulation that starts is in a state in which the next event can be
  handled, and so is every state it reaches. No step indexes out of range, overflows or
  finds a job without what it needs.
- `conservation`: on every server, what is free and what the active jobs hold add up to
  what the server has. Releasing a job undoes placing it.
- `accounting`: every job is yet to arrive, has one event or is through. A simulation that
  finishes has completed every job once, and none runs out of events while jobs are yet
  to arrive. Jobs are placed in the order of their arrival.
- `gpu_scheduler`: over a run that finishes, the times that the scheduler spends idle
  and waiting add up to the last end of a job.
- `placement`: a plan gives every worker a server; load balancing and bin packing never
  give a server more workers than its free GPUs hold.
- `jump`: skipping cycles stops before the next event that changes which jobs run, and
  before any job is through.
- `gpu_cluster`: snapshots of one instant share a row of the utilization log, and one of
  another instant adds a row.
- `timer`, `lcm_utils`, `ranking`, `gpu_job`, `progress`, `bandwidth`, `colocation`,
  `job_trace`, `profiles` and `report` state what their parts promise.

Some laws compare sums, quotients and products, and hold up to rounding: that the shares of
a server stay within its capacity (`bandwidth`), that the demands of a job inside its
servers add up and that a change of contention slows what is left (`gpu_job`), that
percentiles grow (`report`). They are stated for any number type that computes with real
numbers up to an error (`rounds` in `src/rounding.rs`), with that error in the bound. That
whole ticks are such a type is proved there.

## What is taken on trust

- The reading of CSV text is done by the `csv` crate (`src/tables.rs`). The library names
  what the crate returns and says nothing more of it.
- The program runs the library on double-precision numbers. Their operations
  (`app/number.rs`) are taken to meet the contract of `Scalar`: each returns the same
  result for the same operands, and the comparisons are those of an order on the values
  that are not NaN. Nothing checks that. The laws that hold up to rounding apply to doubles
  as far as these are such a type as `rounds` says, which nothing checks either. The laws
  that are stated of `Ticks` alone say nothing of doubles.
- The program around the library (`app/`) is ordinary Rust. It tests what the functions it
  calls require before it calls them.

## Running it

The program reads a JSON configuration from standard input:

```bash
cat config.json | mosim
```
