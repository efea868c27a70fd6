# sdestimator

An estimator of flash wear on SD cards. It polls the write counters that the Linux kernel
keeps for a block device, models how much more is written to flash than the host sends, and
keeps track of the program/erase cycles that the card has gone through, of the life that
remains, and of the years that the card will last at its recent rate of wear. The state is
kept in a JSON file, so that tracking goes on across restarts and reboots.

- `src/` is the library: everything that is parsed, computed and decided, written in Verus
  and proved against its contracts. `src/lib.rs` says what each module is for.
- `app/` is the daemon around it: arguments, sysfs and procfs, `statvfs`, the state file and
  the output.
- `tests/` runs the library on concrete values, among them the arithmetic against that of the
  machine.

## The model

The write amplification has two parts. Flash is written in pages, so that random requests
smaller than a page waste the rest of it:

    page_waf   = max(1, flash_page_size / average_request)
    share      = write_merges / (write_ios + write_merges)
    random_waf = page_waf * (1 - share) + 1 * share

Garbage collection moves data that is still in use, the more the fuller the flash is:

    effective_fill = fullness * (1 - over_provision), cut off at 0 and 0.99
    gc_waf         = 1 / (1 - effective_fill)

The two add up to `random_waf + (gc_waf - 1)`. From what is written to flash follow the wear
and the life:

    cycles = flash_bytes_written / card_bytes
    life   = (1 - cycles / rated_cycles) * 100 percent, cut off at 0 and 100

The figures are binary64 numbers throughout. The library holds them as bit patterns and has
its own arithmetic for them, each operation of which is proved to give the exact result,
rounded to the nearest number.
