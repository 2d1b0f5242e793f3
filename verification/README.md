# simplelinux

The core of a small teaching kernel, written in Rust and verified with Verus.

`src/` holds everything that can be decided on plain values: the frame
allocator, the scheduler, the ELF loader, the virtual file system with its
device, process and ramdisk file systems, the TCP/IP stack, the e1000 and
keyboard drivers, system calls and the shell. What only the machine can do is
described by values: pending device writes, load steps, scheduling actions.

`app/` is the kernel binary around it: boot sequence, ports, page tables,
context switches and the console.

| module | what it holds |
| --- | --- |
| `memory` | bitmap of physical frames, mapping decisions, heap statistics |
| `process` | tasks and their stacks, round-robin scheduler, ELF64 loader |
| `fs` | mount table, descriptors, `devfs`, `procfs`, ustar ramdisk |
| `net` | Ethernet, ARP, IPv4, ICMP, UDP, TCP, sockets |
| `drivers` | e1000 rings and bring-up, PS/2 keyboard |
| `syscall`, `shell` | the `int 0x80` calls and the built-in commands |
| `gdt`, `interrupts`, `timer`, `serial`, `vga` | tables, clock and consoles |
| `runner` | how the virtual machine is started on the host |

Every function states what it returns and changes. Properties that span
functions are public proof functions whose names start with `law_`.
