# sacct_parse

Slurm `sacct --parsable2` exports, read into typed values. Every function under
`src/` is verified by [Verus](https://github.com/verus-lang/verus); `app/` is
ordinary Rust and is not. Beyond what Verus's own library says of `std`, one
contract is assumed: that `String::push` appends its character (`src/text.rs`).

```
sacct --parsable2 --noheader \
  --format=JobIDRaw,Submit,Start,End,ElapsedRaw,AllocTRES,TimelimitRaw,QOS,Partition,State,User
```

- `parse_row` and `parse_file` turn lines into `Record` values, with a named
  error for every field that cannot be read.
- `map_export` turns a whole export into jobs on the jobs contract, by a mapping
  file (`TierMap`) and a site clock (`SiteClock`).

## Layout

- `src/text.rs`, `number.rs`, `rounding.rs`, `calendar.rs`: text, integers,
  decimal counts rounded as double precision does, dates.
- `src/table.rs`, `order.rs`: a map in name order, a stable sort.
- `src/record.rs`: one row as a `Record`; `src/record_laws.rs`: what holds of
  records together.
- `src/tiers.rs`, `site.rs`, `row.rs`, `job.rs`, `export.rs`, `error.rs`: the
  mapping file, the site's hours, one row of an export, the whole of it;
  `src/tier_laws.rs`, `export_laws.rs`: what holds of a mapping file and of a
  conversion.
- `app/`: errors that implement `std::error::Error`, jobs in floating-point
  hours, and the clock that is asked for its readings.

Whether a `Submit` is a clock reading at all is asked of the caller: `instants`
gives the text to look up for each line, and `map_export` takes the answers. So
is the site's clock, hour by hour, for as long as `wants_reading` says: `SiteClock`
holds what it showed.
