# anre

A regular expression engine with two notations: the ANRE notation, which
writes patterns as function calls (`'a'.one_or_more()`, `name(char_digit, n)`),
and the traditional notation (`a+`, `(?<n>\d)`). Both are parsed into one
syntax tree, compiled into a route (a graph of nodes and transitions, one
line per pattern and per look-around condition) and run by a backtracking
matcher.

The library is written in Verus. Each stage has a contract stated over a
mathematical model:

- `anre::scan` and `traditional::scan`: the tokens a text stands for;
- `anre::macro_expander`: what the `define` macros expand to;
- `anre::grammar` and `traditional::grammar`: the syntax tree the tokens make;
- `compiled`: the route each syntax tree compiles to (`route_of`);
- `process` and `semantics`: the leftmost match the matcher finds on a route;
- `regex`: the public API (`Regex`, `Match`, `Captures`, the iterators),
  with the laws that relate its operations.
