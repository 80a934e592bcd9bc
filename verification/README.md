# dejavu

Turns an OpenAI-compatible vLLM service into a classifier. A request holds a
text, a question and the options to choose from; the response names the most
probable option and gives the probability of each.

- `src/` is the library, verified with Verus. It decides which requests are
  refused, what is asked of the model, what an answer of the service comes to,
  how replies are read, which tokens are followed further, and what the response
  says. It does no input or output and no floating-point arithmetic. A
  `Classification` says what it wants (`action`) and goes on with what it is
  given (`reply`, `supply`, `describe`) or ends where a request brought no reply
  (`fail`); numbers pass through it as bit patterns.
- `app/` is the HTTP service: it performs the actions.
- `tests/` runs the library against models that are made up.

In `src/`, `scoring.rs` holds the walk over the tokens, `outcome.rs` and
`verdict.rs` define what a walk and a classification come to, for any model, and
show that they arrive there, `coherence.rs` holds what is true at every place of
a walk, and `exact.rs` what the scores and the probabilities stand for in exact
arithmetic.
