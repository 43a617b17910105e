# int_set_par

A multiset of natural numbers with a digest: a group element that is raised to the power of each
number that is put in. The comb of precomputed powers from which a digest can be rebuilt is cut into
tables of the products of all subsets of a few powers.

- `digits`, `numeral`, `lines`, `log2`: what digits, texts and lines stand for
- `natural`, `integer`: numbers of any size
- `bignum`, `par`: the calls into `rug`, `num_bigint` and `rayon`
- `product`: the product of a list, multiplied in pairs
- `tables`, `precomp`: precomputed powers and their tables
- `elements`, `group`, `exp_set`: the multiset and its digest

`app/` reads and writes the files of bases.
