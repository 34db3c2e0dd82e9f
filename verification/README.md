# microdns

A minimal DNS resolver library, verified with Verus.

- `src/` is the library, every function with a contract that Verus proves:
  - `header`: the fixed DNS header;
  - `name`: names, their labels and compression pointers, and questions;
  - `record`: answer records (MX, A, AAAA);
  - `response`: the MX and IP records of a whole response, MX records sorted
    by priority;
  - `query`: building a query packet for a domain;
  - `resolver`: the configuration, the lookup that asks servers in turn, and
    how the replies of several lookups are combined;
  - `error`: the error type and its messages;
  - `laws`: properties proved across functions (a built query reads back as
    the domain, empty labels are ignored, sorting keeps and orders the
    records, pointer loops and chains of more than ten pointers are refused).
- `app/` holds what needs the network: the UDP exchange with each server and
  the lookup functions built on it, with conversions to `std::net` addresses.
- `tests/` runs the library on fixed packets.
