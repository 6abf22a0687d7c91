# btd

A statistical disk usage analyzer for btrfs. It draws random addresses from the allocated
space of a file system, asks the kernel which files each address belongs to, and shows
estimated sizes that get better the longer it runs.

`src/` is the library, verified with Verus: drawing in proportion, turning a draw into
samples, adding samples up along paths and on a map of the devices, estimating and ranking
sizes, what each turn of the user interface does, and the lines inside the boxes on the
screen. Amounts that are usually floating
point are kept as binary64 bit patterns and computed with proved rounding, so that results
are the same bits as those of hardware doubles; `tests/` holds both against each other.

`app/` is the program around it: ioctls, files, threads, the channel between samplers and
aggregator, the pacing of the samplers, and the terminal with its boxes and their titles.

The proofs rest on two statements about code outside the library: `String::push` appends a
character (`src/text.rs`), and `rand`'s `gen_range` returns a number within its range
(`src/sampler.rs`).
