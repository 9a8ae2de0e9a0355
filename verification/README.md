# galois

Arithmetic over finite fields GF(p^m), written in Verus and proved against its contracts.

- `src/` is the verified library: prime fields and extension fields with 64-bit elements
  (log/exp tables), fields with arbitrary-precision elements (`BigGaloisField`, with
  num-bigint behind small trusted wrappers), arrays with broadcasting, polynomials over
  GF(p), GF(p^m) and the integers (arithmetic, division, gcd, factorization, roots,
  primitive and irreducible polynomials), linear algebra (solve, inverse, determinant,
  LU, null space, characteristic polynomial), Reed-Solomon and BCH codes, linear-feedback
  shift registers with Berlekamp-Massey, the number-theoretic transform, and number theory
  (primes, factorization, totients, Jacobi and Kronecker symbols, CRT, primitive roots).
- `app/` holds what needs I/O: the SQLite databases of Conway and irreducible
  polynomials, the process-wide field cache, and errors with readable messages.
- `tests/` exercises the library through its public API.
