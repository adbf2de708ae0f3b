# rain-stream

A payments engine: it reads transaction records (deposit, withdrawal,
dispute, resolve, chargeback) from a CSV file and keeps each client's
account (available, held, total, locked).

- `src/` is the library, verified with Verus: decoding of CSV rows into
  records (`decode`, `number`), the account rules (`transactions_processor`),
  chunked reading (`csv_reader`), per-client queues (`transactions_queue`),
  the command line (`cli`) and the laws that hold across them (`laws`).
  Amounts are fixed-point with four decimals, in `i64` ten-thousandths.
- `app/` is the program around it: file access, the async runtime, printing.
- `tests/` runs the library on concrete inputs.

## Amounts

An amount field is an optional sign, decimal digits with an optional decimal
point, and an optional exponent (`1.5e2`). It is rounded once, when read, to
four decimals (half away from zero) and kept as a count of ten-thousandths in
an `i64`. Amounts larger than that, and `inf` or `nan`, cannot be held: the
row is refused with "amount out of range". Balances use checked arithmetic:
a record whose result would not fit is ignored.

## Rows

The header row names the columns (`type`, `client`, `tx`, `amount`; others
are ignored). When the header row is not UTF-8, the fields of each row are
taken by position in that order. A row that is not a record ends the reading
with the CSV reader's own message for it, with the row's position.
