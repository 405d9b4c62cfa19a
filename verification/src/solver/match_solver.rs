//! Helpers of the match rule: divisors of an area and rose symbol counts.
use vstd::prelude::*;
use super::{rose_count, Solver};
use crate::parser::{sorted_insert, strictly_increasing};
use crate::types::CellClue;
use vstd::arithmetic::div_mod::{lemma_fundamental_div_mod, lemma_fundamental_div_mod_converse};

verus! {

/// `x` is a proper divisor of `n` in `lo..=hi`.
pub open spec fn divisor_in_range(n: int, lo: int, hi: int, x: int) -> bool {
    0 < x && x < n && n % x == 0 && lo <= x <= hi
}

proof fn lemma_divisor_pair(n: int, x: int, d: int)
    requires
        0 < x,
        n % x == 0,
        x >= d,
        n / x >= d,
        d >= 1,
        n >= 0,
    ensures
        d * d <= n,
{
    assert(x * (n / x) == n) by (nonlinear_arith)
        requires
            0 < x,
            n % x == 0,
    ;
    assert(d * d <= x * (n / x)) by (nonlinear_arith)
        requires
            x >= d,
            n / x >= d,
            d >= 1,
    ;
}

/// The two divisors `d` and `n / d` of `n`.
proof fn lemma_quotient(n: int, d: int)
    requires
        d >= 1,
        n >= 0,
        n % d == 0,
    ensures
        d * (n / d) == n,
        n / d >= 1 ==> n % (n / d) == 0 && n / (n / d) == d,
{
    lemma_fundamental_div_mod(n, d);
    let q = n / d;
    if q >= 1 {
        assert(n == q * d + 0) by (nonlinear_arith)
            requires
                n == d * q,
        ;
        lemma_fundamental_div_mod_converse(n, q, d, 0);
    }
}

impl Solver {
    /// The proper divisors of `n` (below `n`) that lie in `lo..=hi`, in
    /// increasing order.
    pub fn divisors_in_range(n: usize, lo: usize, hi: usize) -> (r: Vec<usize>)
        ensures
            strictly_increasing(r@),
            forall|x: usize| r@.contains(x) <==> divisor_in_range(n as int, lo as int, hi as int, x as int),
    {
        let mut result: Vec<usize> = Vec::new();
        let mut d: usize = 1;
        proof {
            assert forall|x: usize| !(divisor_in_range(n as int, lo as int, hi as int, x as int) && (x < 1
                || (n as int) / (x as int) < 1)) by {
                if divisor_in_range(n as int, lo as int, hi as int, x as int) {
                    assert((n as int) / (x as int) >= 1) by (nonlinear_arith)
                        requires
                            0 < x < n,
                    ;
                }
            }
        }
        while d <= n / d
            invariant
                1 <= d,
                strictly_increasing(result@),
                forall|x: usize|
                    result@.contains(x) <==> (divisor_in_range(n as int, lo as int, hi as int, x as int) && (x < d
                        || (n as int) / (x as int) < d)),
            decreases n + 1 - d,
        {
            proof {
                assert(d * d <= n) by (nonlinear_arith)
                    requires
                        d <= n / d,
                        d >= 1,
                ;
                assert(d <= n) by (nonlinear_arith)
                    requires
                        d * d <= n,
                        d >= 1,
                ;
                assert(d < usize::MAX) by (nonlinear_arith)
                    requires
                        d * d <= n,
                        n <= usize::MAX,
                        d >= 1,
                        usize::MAX > 2,
                ;
            }
            let ghost before = result@;
            if n % d == 0 {
                proof {
                    lemma_quotient(n as int, d as int);
                    assert(n / d >= d) by (nonlinear_arith)
                        requires
                            d <= n / d,
                    ;
                }
                if d >= lo && d <= hi && d < n {
                    sorted_insert(&mut result, d);
                }
                let q = n / d;
                if q != d && q >= lo && q <= hi && q < n {
                    sorted_insert(&mut result, q);
                }
            }
            proof {
                assert forall|x: usize|
                    result@.contains(x) <==> (divisor_in_range(n as int, lo as int, hi as int, x as int) && (x < d + 1
                        || (n as int) / (x as int) < d + 1)) by {
                    if divisor_in_range(n as int, lo as int, hi as int, x as int) && (x as int) / 1 >= 0 {
                        if (n as int) / (x as int) == d && x != d {
                            lemma_quotient(n as int, x as int);
                            assert(x * d == n);
                            assert(d * x == n) by (nonlinear_arith)
                                requires
                                    x * d == n,
                            ;
                            lemma_fundamental_div_mod_converse(n as int, d as int, x as int, 0);
                        }
                    }
                }
            }
            d = d + 1;
        }
        proof {
            assert forall|x: usize| result@.contains(x) <==> divisor_in_range(n as int, lo as int, hi as int, x as int) by {
                if divisor_in_range(n as int, lo as int, hi as int, x as int) && x >= d && (n as int) / (x as int) >= d {
                    lemma_divisor_pair(n as int, x as int, d as int);
                    assert(d * d > n) by (nonlinear_arith)
                        requires
                            !(d <= n / d),
                            d >= 1,
                    ;
                }
            }
        }
        result
    }

    /// How many rose clues carry one of the rose symbols that occur (0 when
    /// there are none). The symbol is the smallest that occurs.
    pub fn count_rose_symbols(&self) -> (r: usize)
        ensures
            r == 0 <==> forall|s: u8| #[trigger] rose_count(self.puzzle.cell_clues@, s) == 0,
            r > 0 ==> exists|s: u8| #[trigger] rose_count(self.puzzle.cell_clues@, s) == r,
    {
        let ghost clues = self.puzzle.cell_clues@;
        let mut counts: Vec<usize> = vec![0usize; 256];
        let mut i: usize = 0;
        while i < self.puzzle.cell_clues.len()
            invariant
                i <= clues.len(),
                clues == self.puzzle.cell_clues@,
                counts@.len() == 256,
                forall|x: int| 0 <= x < 256 ==> #[trigger] counts@[x] == rose_count(clues.take(i as int), x as u8),
                forall|x: int| 0 <= x < 256 ==> #[trigger] counts@[x] <= i,
            decreases clues.len() - i,
        {
            proof {
                super::lemma_rose_count_push_all(clues.take(i as int), clues[i as int]);
                assert(clues.take(i + 1) =~= clues.take(i as int).push(clues[i as int]));
            }
            if let CellClue::Rose { symbol, .. } = &self.puzzle.cell_clues[i] {
                let s = *symbol as usize;
                let c = counts[s];
                counts.set(s, c + 1);
            }
            i = i + 1;
        }
        proof {
            assert(clues.take(clues.len() as int) =~= clues);
        }
        let mut x: usize = 0;
        while x < 256
            invariant
                x <= 256,
                clues == self.puzzle.cell_clues@,
                counts@.len() == 256,
                forall|y: int| 0 <= y < 256 ==> #[trigger] counts@[y] == rose_count(clues, y as u8),
                forall|y: int| 0 <= y < x ==> #[trigger] counts@[y] == 0,
            decreases 256 - x,
        {
            if counts[x] > 0 {
                proof {
                    assert(rose_count(self.puzzle.cell_clues@, x as u8) == counts@[x as int]);
                }
                return counts[x];
            }
            x = x + 1;
        }
        proof {
            assert forall|s: u8| #[trigger] rose_count(clues, s) == 0 by {
                assert(counts@[s as int] == rose_count(clues, (s as int) as u8));
            }
        }
        0
    }
}

} // verus!
