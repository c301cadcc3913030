# maintenance

Planning of maintenance interventions on a horizon of days. Each
intervention may start on any day up to its latest start and then runs
during a period that depends on that day; it uses resources, carries risks
over scenarios, and may be excluded with other interventions during some
seasons.

## Layout

- `src/` is the library, verified with Verus:
  - `types.rs`: identifiers, days and non-empty periods;
  - `seasons.rs`: sets of seasons (`fixedbitset::FixedBitSet`) and the
    specifications of the bitset methods the library calls;
  - `exclusion.rs`: exclusions of an intervention and the tests on them;
  - `risks.rs`, `intervention.rs`, `maintenance.rs`: the instance, with
    workloads of any type `W` and risk values of any type `F`;
  - `reader.rs`: what reading an instance computes (seasons of the days,
    exclusions, periods, seasons of the periods, placement of risks and
    workloads);
  - `search.rs`: the state of the search for a planning;
  - `common.rs`, `utils.rs`, `summary.rs`: a fixed array, element-wise
    operations, and the summary of an instance.
- `app/` is the program: it decodes the JSON document, computes the
  floating-point workloads and costs of the local search, writes the
  planning, and encodes summaries as Cap'n Proto messages.
- `tests/` runs the library on concrete values.
