# vhdx

A library for VHDX, the virtual-disk format of Hyper-V and WSL2, written in
Verus: its behaviour is stated in contracts and proved.

The library performs no I/O. It holds the rules of the format and decides;
whoever holds the device answers its requests for bytes and carries out the
operations that it plans. What the answers and operations come to is stated over
the bytes of the device:

- opening an image comes to `open::opened`, log replay included;
- a read of the virtual disk gives its `volume::contents`;
- a write of the virtual disk comes to `write::wrote`.

On top of these stand the laws:

- a read gives back what was written, and nothing else changes (`volume`);
- an image that is closed and opened again holds what it held, and a replayed log
  is not replayed again (`durability`);
- a crash in the middle of a write loses that write at most
  (`durability::crash`);
- a crash in the middle of opening an image is made good by the next open
  (`durability::recovery`).

Those on writes are stated of images whose blocks lie apart, as
`volume::blocks_apart` says: where the BAT names one place twice, a write to one
block shows in another. Nor may a new block land on a place past the end of the
device that the BAT already names (`volume::claims_are_free`).

Not handled: differencing images, and blocks that are only partially present.
Both are refused.

## Layout

- `src/`: the verified library.
- `tests/`: its tests, on structures and on whole images in memory.
- `app/`: the library on `fs_core` block devices, with the C ABI.

CRC-32C is computed by the `crc32c` crate, behind the one trusted function of
the library, `checksum::crc32c`, which is trusted to return
`checksum::crc32c_of`.
