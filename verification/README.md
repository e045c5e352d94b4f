# whidl

A compiler from nand2tetris HDL to VHDL, written in Verus: every function
under `src/` carries a contract that Verus proves.

- `scanner`, `test_scanner`, `test_parser`: the HDL tokenizer, and the
  tokenizer and parser of `.tst` test scripts.
- `expr`: width expressions (`W`, `W+1`, `MAX(A, B)`), their evaluation and
  simplification.
- `parser`, `simulator`: the parse tree of chips, for-generate unrolling,
  assignment gathering and width inference.
- `chip`, `elaborate`: chips built for simulation from parsed HDL (ports
  with resolved widths, signal buses, unrolled components, resolved
  assignments; Nand and DFF built in), and their elaboration one level
  deep: the source of every bit of every signal, with the checks that no
  bit has two sources, that every input bit of every part is connected and
  that every bit read has a source; the Nand gate's evaluation and the
  DFF's clock tick.
- `circuit`: simulation. A chip and every chip under it become the nodes of
  a circuit with resolved wiring; values settle by sweeps over each node's
  parts, DFFs keep their state until the clock ticks, `Simulator` steps and
  ticks one chip, and `run_test` (in `test_script`) runs a test script
  against the compare lines.
- `table`: the truth table of a chip over every combination of its inputs.
- `busmap`: named bit vectors with partly known values.
- `opt`: the sequential-chip pass and the port-map deduplication pass.
- `vhdl`: VHDL entities and their text, and Quartus project scripts.
- `test_script`, `modelsim`: test inputs as bits, `.cmp` compare files, and
  Modelsim testbenches.
- `rom`, `logisim`: ROM chips in HDL, and Logisim projects.

`app/` holds what needs the file system or serde: XML export of Logisim
projects and error reports that quote the source line. `tests/` holds the
tests.
