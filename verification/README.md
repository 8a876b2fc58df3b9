# rust_iron

Numerical semigroups and Wilf's conjecture.

For a list of positive integers the library computes the numerical semigroup they
generate after division by their gcd: membership up to past the conductor, the Apéry
set modulo the least generator, the conductor, the members below it, the gaps, the
minimal generators and the quantities of Wilf's conjecture.  A web page shows them
for lists typed into a form, with random samples of the same shape; a batch mode runs
over windows of consecutive primes of an arithmetic progression.

Layout:

- `src/numsg.rs`: the semigroup of a sequence of generators as a spec, Apéry
  elements, Frobenius number, minimal generators.
- `src/residues.rs`: coprime generators reach every residue below `(m - 1)` times the
  largest generator.
- `src/gaps.rs`: Selmer's formula, modulo the multiplicity and modulo any member.
- `src/two_gens.rs`: two coprime generators, Sylvester's conductor and gap count.
- `src/modules/wilf.rs`: `generatewilf`, the membership table and its derived data, the
  tables the page shows.
- `src/modules/semigroup.rs`: `semi`, the sliding-window sieve, and its agreement with
  `generatewilf`.
- `src/semigroup.rs`: a first sieve whose window moves by the multiplicity, described
  step by step.
- `src/modules/input.rs`, `src/modules/sample.rs`: reading the form fields, drawing
  random samples and deciding which to keep.
- `src/primes.rs`: primes of an arithmetic progression (from `primal`) and the index
  windows of the batch runs.
- `src/html.rs`: the HTML of a semigroup (membership grid, lambda matrix, table modulo
  a number, summary), each page stated character by character.
- `app/`: the command line, the web server, and the loop that draws random samples.
