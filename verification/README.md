# pwdchk

A password checker and port prober, with its logic verified by Verus.

- `src/account.rs`: accounts (`login:password`), parsing them, and grouping
  the logins that share a password.
- `src/hipb.rs`: SHA-1 digests of passwords split into the five-digit prefix
  and the suffix used by the Have I Been Pwned range service, grouping by
  prefix, and reading the service's `SUFFIX:COUNT` answers.
- `src/scanner.rs`: expanding IPv4 networks into host addresses, the
  host-by-port targets, the decisions of a TCP probe, and the report lines.
- `src/block_alloc.rs`: a fixed arena of blocks with first-fit search.
- `src/executor.rs`: the decisions of a blocking executor and its waker flag.
- `src/grouping.rs`, `src/text.rs`: grouping by key, and text helpers
  (splitting, joining, lines, decimal and hexadecimal text).
- `app/`: the command line program (argument parsing, files, network, threads).
