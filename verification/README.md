# pocketboot

LinuxBoot for pocket computers: a small program that runs as `/init` of a Linux
kernel inside an Android boot image, finds a real operating system on the local
disks or takes one from a host over USB, and enters it with kexec. A second
program, the preboot, stands in front of that kernel on boards whose firmware
leaves the processors or the serial port unready.

The parsers, the plans, the protocols and the order of what is done to a device
are in the library, `src/`, and proved with Verus against the contracts that
stand beside the code. The programs around it, `app/`, read and write files,
devices and USB endpoints as the library says, hold the threads, and put the
pieces together.

## Layout

- `kexec`, `pe`, `zboot`: taking a kernel out of its wrapping, placing it in
  memory with its ramdisk and its device tree, and telling it so in the tree.
- `bootflow`, `boot_menu`, `partitions`, `system`: disks, boot partitions, boot
  entries, and which of them is booted.
- `fastboot`, `adb`, `gadget`: what the host may ask for and what it is
  answered.
- `android_lp`, `firmware`, `ab_slots`: logical partitions, and the firmware
  that the vendor left on them.
- `mesh`: addresses, links and routing among nearby devices.
- `boot_state`, `battery`, `power`, `modules`, `getty`, `kmsg`,
  `kmsg_forwarder`, `cmdline`: what the device tells of itself, and the log.
- `preboot`: device trees, power controllers, calls of the secure firmware and
  the start of further processors.
- `bytes`, `text`, `collect`, `order`, `digest`, `devicetree`, `errors`: what
  the others share.

Properties that hold of more than one function are stated as proof functions
whose names begin with `law_`. What is taken on trust from `flate2`, `ruzstd`,
`sha2`, `abootimg-oxide` and the standard library stands in `kexec`, `digest`,
`fastboot::boot` and `text`, with a comment on each.

Work that waits for a device is written as steps: a function takes how far the
work has come and what the device answered, and returns what to do next. The
code in `app/` performs each step and hands the answer back.
