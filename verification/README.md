# onebrc

Min/mean/max per weather station over a text of `name;temperature` rows, computed by many
threads over shared tables. The library in `src/` is written in Verus and proved; the program in
`app/` runs it on a GPU.

The text is dealt out evenly to the threads. Each thread starts behind the first newline of its
part (the first thread at byte 0) and counts the rows that begin no later than where the part ends,
its last row to the end of it. So every row is counted by exactly one thread.

Stations are kept in four open-addressing tables of 16384 slots. A slot is empty (length 0), being
written (-1), or has a name (its length). The threads of a block first aggregate into a table of
2048 slots of their own, and add it to their table when all of them are through.

## Layout

| Module | Content |
|--------|---------|
| `parse`, `hash`, `launch` | rows, readings, slots, parts of the text |
| `aggregate`, `tables` | the four values of a station, and the arrays that hold them |
| `worker` | a thread as a state machine that asks for one access to memory after the other |
| `state`, `run` | what an access does, and what holds after every step in any order |
| `frame`, `logs`, `seek`, `barrier`, `addition`, `step`, `progress` | proofs that each step keeps it, and that threads get on |
| `outcome`, `course`, `grid` | what a launch has done when all threads are through; its course in a given order, and running it |
| `mean`, `format`, `order`, `station`, `report` | from the tables to `{Abha=-23.0/18.0/59.2, ...}` |
| `search` | finding or claiming the slot of a name, alone with the tables |
| `text`, `lines`, `claims`, `slots`, `solo`, `totals` | which rows are read, texts that are made of rows, what slots are good for, what becomes of a slot, what a single thread does, and what the report says of the text |

## What is not proved

- Accesses to memory are taken to have effect one at a time, in some order. The orderings that a GPU
  gives to atomic accesses are not modelled.
- A name is copied, or compared, in one step, and a value of a block's table is read and added to the
  table in one step (`state`). The program takes several. It is proved that writing a name commutes
  with every step of another thread, and that no step changes a name or a block's table while it is
  read (`claims`). A launch with the smaller steps is not modelled, so that it ends in the same way is
  not proved.
- The program answers the requests of the threads on the GPU (`serve` in `app/kernels.rs`). That it
  does there what `State::served` says is not proved.
- The mean is worked out in integers, with the roundings that a division of doubles would make
  (`mean`). It is proved to be what `mean` says it is. That this is what doubles give is not proved;
  `tests/format.rs` compares the two.
- `String::from_utf8_lossy` is taken to decode valid UTF-8, and to give the same text for the same
  bytes (`station::decode_name`). Nothing is said of what it puts in place of other bytes.
