# usb-storage-nostd

USB Mass Storage over Bulk-Only Transport, verified with Verus.

- Bulk-Only Transport: 31-byte CBW, 13-byte CSW, reset recovery
- SCSI command blocks and responses: INQUIRY, READ CAPACITY(10), READ(10),
  WRITE(10), TEST UNIT READY, REQUEST SENSE, MODE SENSE(6)
- a `BlockDevice` trait, and a driver that implements it
- detection of mass storage interfaces (class 0x08, subclass 0x06, protocol 0x50)
- write protection by MODE SENSE(6)

## Layout

| Module | What it holds |
|---|---|
| `bot` | CBW, CSW, the transport trait, command execution, reset recovery |
| `exchange` | what one exchange comes to, as a function of the transport's record |
| `scsi` | command blocks and responses |
| `link` | the way to the transport: one lock per command, and an account of the exchanges |
| `session` | what the driver's operations come to, as functions of a series of exchanges |
| `unit` | `StorageUnit`: initialization, sector and byte I/O over a link |
| `driver` | `UsbStorageDevice`: a unit and its transport behind a lock, as a `BlockDevice` |
| `disk` | what reads and writes do to a disk |
| `block`, `bytes`, `text`, `lock` | the block device trait, integers on the wire, strings, the lock |

A transport keeps a record of its calls in the model. `execute_command` says
which record it leaves and which result that record gives. A link keeps account
of the exchanges made over it, and each operation of `StorageUnit` says which
exchanges it added: these, in this order, and no others. The proof functions
named `law_*` hold what follows: among others that a command succeeds only where
the device vouched for it, that a write-protected unit is sent nothing by a
write, that a read brings the bytes of the disk, that a write changes no other
bytes, and that what was written is read back.

`UsbStorageDevice` opens a link for each operation and hands it to the unit. Its
transport is shared by reference and changes behind its lock, so its own contracts
say that such exchanges took place and what came of them.

Trusted are the contracts of `core::str::from_utf8`, `str::trim`,
`core::hint::spin_loop` and of the lock of the `spin` crate. Nothing is claimed of
what a lock protects.

`app/` holds what a running system adds: the process-wide series of command tags
and errors that can be displayed.
