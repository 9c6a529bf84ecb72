# topdown

Topdown performance analysis for Arm CPUs. The tool programs the hardware
counters of a CPU with `perf_event_open(2)`, runs or watches a workload, and
computes the metrics of the CPU's telemetry specification from the counts.

- `src/` is the library, written in Verus. Its functions state what they return
  and are proved to do so: reading and validating specifications, looking up
  events, metrics and groups, reading and evaluating formulas, scheduling events
  within the counters, the course of a capture, computing metrics, and what is
  shown and written. What calls outside it do is taken on trust: `String::push`,
  `String::hash`, `str::to_lowercase`, and drawing a table with `comfy_table`.
- `app/` is the command-line tool around it: arguments, JSON, the system calls,
  floating-point arithmetic, CSV files.
- `tests/` runs the library on concrete values.

## Modules

| module | what it holds |
|---|---|
| `spec` | telemetry specifications and their validation |
| `database` | events, metrics, groups and the topdown methodology, with lookups by name |
| `formula` | tokens, expressions and their evaluation |
| `scheduler` | grouping events and packing them into rounds |
| `perf` | event attributes, counter readings, privileges, CPU identification |
| `workload` | what is captured, and the course of a capture |
| `cpu` | choosing cores, specification and groups, and computing metrics |
| `output`, `table` | listings, tables and CSV records |
| `cli` | the options of the command line |
| `results`, `name_map` | counter values by event group, and maps by name |
| `text`, `number`, `order` | characters, integers and sorting |

Numbers with a fraction stay out of the library: it takes their arithmetic as
functions, and the forms in which they are shown as texts.

## Usage

```bash
# Analyse a command
topdown-tool -- ./my_workload

# Name the specification of the CPU
topdown-tool --cpu neoverse_v2_r0p0_pmu.json -- ./my_workload

# The whole system, until Ctrl+C
topdown-tool -a

# Processes, in intervals of half a second, as CSV
topdown-tool -p 1234,5678 -I 500 --csv ./results
```
