# integral_calculator

A numerical integrator for equations in one variable `x`, with a small
graphical front end.

- `src/` is the verified library: normalising the typed equation
  (`sanitize`), splitting it into groups, terms and operators (`tokens`),
  what each term names (`term`), the order in which the operations are done
  (`tree`, with its laws in `tree_laws`), the weights of a left, right or
  midpoint Riemann sum (`riemann`), putting a sample point in place of `x`
  (`sampling`), the keypad (`keypad`) and character-level text replacement
  (`text`).
- `app/` holds the window, the threads that share the work, and the
  floating-point arithmetic, none of which the library can hold.
- `tests/` exercises the library on concrete equations.
