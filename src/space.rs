use vstd::prelude::*;

verus! {

/// Width taken by the separator that follows column `i` of `k`, plus the
/// left border before the first column.
pub open spec fn sep_width(i: int, k: int) -> int {
    (if i != k - 1 { 3int } else { 0int }) + (if i == 0 { 1int } else { 0int })
}

/// The sum of `sep_width` over the first `n` columns.
pub open spec fn sep_total(k: int, n: int) -> int
    decreases n,
{
    if n <= 0 { 0 } else { sep_total(k, n - 1) + sep_width(n - 1, k) }
}

/// Space accounting of a table's columns: how many columns exceed their
/// share, the room taken by the others with their separators, and the room
/// taken by the separators of the exceeding ones.
pub struct ColumnSpace {
    pub num_overages: usize,
    pub underage_sum: usize,
    pub overage_separator_sum: usize,
}

/// `(num_overages, underage_sum, overage_separator_sum)` of the first pass
/// over the first `n` of `k` columns, against the even share `naive`.
pub open spec fn first_pass(widths: Seq<usize>, naive: int, k: int, n: int) -> (int, int, int)
    decreases n,
{
    if n <= 0 {
        (0, 0, 0)
    } else {
        let prev = first_pass(widths, naive, k, n - 1);
        let w = widths[n - 1] as int;
        if w > naive {
            (prev.0 + 1, prev.1, prev.2 + sep_width(n - 1, k))
        } else {
            (prev.0, prev.1 + w + sep_width(n - 1, k), prev.2)
        }
    }
}

/// The second pass over the first `n` of `k` columns: an exceeding column
/// that fits within `limit` joins the fitting ones. The second component
/// is what this pass adds to the first pass's `underage_sum`.
pub open spec fn second_pass(widths: Seq<usize>, naive: int, limit: int, k: int, n: int) -> (int, int, int)
    decreases n,
{
    if n <= 0 {
        (0, 0, 0)
    } else {
        let prev = second_pass(widths, naive, limit, k, n - 1);
        let w = widths[n - 1] as int;
        if w > naive {
            if w <= limit {
                (prev.0, prev.1 + w + sep_width(n - 1, k), prev.2)
            } else {
                (prev.0 + 1, prev.1, prev.2 + sep_width(n - 1, k))
            }
        } else {
            prev
        }
    }
}

/// The width left to each exceeding column: the room that the fitting
/// columns and all separators leave, split evenly; 99999 when no column
/// exceeds.
pub open spec fn overage_width(num: int, under: int, seps: int, termwidth: int) -> int {
    if num > 0 { (termwidth - 1 - under - seps) / num } else { 99999 }
}

pub proof fn lemma_sep_total(k: int, n: int)
    requires
        0 <= n <= k,
    ensures
        sep_total(k, n) <= 3 * n + 1,
        1 <= n < k ==> sep_total(k, n) == 3 * n + 1,
        n == 0 ==> sep_total(k, n) == 0,
        n == k && k >= 1 ==> sep_total(k, n) == 3 * (k - 1) + 1,
    decreases n,
{
    if n > 0 {
        lemma_sep_total(k, n - 1);
    }
}

pub proof fn lemma_first_pass_bound(widths: Seq<usize>, naive: int, k: int, n: int)
    requires
        0 <= n <= k <= widths.len(),
        naive >= 0,
    ensures
        0 <= first_pass(widths, naive, k, n).0 <= n,
        0 <= first_pass(widths, naive, k, n).2,
        0 <= first_pass(widths, naive, k, n).1,
        first_pass(widths, naive, k, n).1 + first_pass(widths, naive, k, n).2
            <= (n - first_pass(widths, naive, k, n).0) * naive + sep_total(k, n),
        first_pass(widths, naive, k, n).0 == 0 ==> first_pass(widths, naive, k, n).2 == 0,
    decreases n,
{
    if n > 0 {
        lemma_first_pass_bound(widths, naive, k, n - 1);
        let p = first_pass(widths, naive, k, n - 1);
        assert((n - p.0) * naive == (n - 1 - p.0) * naive + naive) by (nonlinear_arith);
        assert((n - (p.0 + 1)) * naive == (n - 1 - p.0) * naive) by (nonlinear_arith);
    }
}

pub proof fn lemma_second_pass_bound(widths: Seq<usize>, naive: int, limit: int, k: int, n: int)
    requires
        0 <= n <= k <= widths.len(),
        naive >= 0,
        limit >= 0,
    ensures
        0 <= second_pass(widths, naive, limit, k, n).0 <= first_pass(widths, naive, k, n).0,
        0 <= second_pass(widths, naive, limit, k, n).1,
        0 <= second_pass(widths, naive, limit, k, n).2,
        second_pass(widths, naive, limit, k, n).1 + second_pass(widths, naive, limit, k, n).2
            <= first_pass(widths, naive, k, n).2
               + (first_pass(widths, naive, k, n).0 - second_pass(widths, naive, limit, k, n).0) * limit,
    decreases n,
{
    if n > 0 {
        lemma_second_pass_bound(widths, naive, limit, k, n - 1);
        lemma_first_pass_bound(widths, naive, k, n - 1);
        let p = first_pass(widths, naive, k, n - 1);
        let q = second_pass(widths, naive, limit, k, n - 1);
        assert((p.0 + 1 - q.0) * limit == (p.0 - q.0) * limit + limit) by (nonlinear_arith);
        assert((p.0 + 1 - (q.0 + 1)) * limit == (p.0 - q.0) * limit) by (nonlinear_arith);
    }
}

impl ColumnSpace {
    /// Measure how much space is left once the columns that fit within the
    /// even share `max_naive_column_width` are set aside.
    pub fn measure(max_per_column: &[usize], max_naive_column_width: usize, headers_len: usize) -> (r: ColumnSpace)
        requires
            1 <= headers_len <= max_per_column@.len(),
            headers_len * max_naive_column_width + 3 * (headers_len - 1) + 1 <= usize::MAX,
        ensures
            (r.num_overages as int, r.underage_sum as int, r.overage_separator_sum as int)
                == first_pass(max_per_column@, max_naive_column_width as int, headers_len as int, headers_len as int),
    {
        let mut num_overages: usize = 0;
        let mut underage_sum: usize = 0;
        let mut overage_separator_sum: usize = 0;
        let ghost widths = max_per_column@;
        let ghost naive = max_naive_column_width as int;
        let ghost k = headers_len as int;
        let mut i: usize = 0;
        while i < headers_len
            invariant
                i <= headers_len <= widths.len(),
                widths == max_per_column@,
                naive == max_naive_column_width,
                k == headers_len,
                headers_len * max_naive_column_width + 3 * (headers_len - 1) + 1 <= usize::MAX,
                (num_overages as int, underage_sum as int, overage_separator_sum as int)
                    == first_pass(widths, naive, k, i as int),
            decreases headers_len - i,
        {
            proof {
                lemma_first_pass_bound(widths, naive, k, i + 1);
                lemma_sep_total(k, i + 1);
                let o = first_pass(widths, naive, k, i + 1).0;
                assert((i + 1 - o) * naive <= k * naive) by (nonlinear_arith)
                    requires 0 <= o, i + 1 <= k, naive >= 0;
            }
            let column_max = max_per_column[i];
            if column_max > max_naive_column_width {
                num_overages += 1;
                if i != headers_len - 1 {
                    overage_separator_sum += 3;
                }
                if i == 0 {
                    overage_separator_sum += 1;
                }
            } else {
                underage_sum += column_max;
                if i != headers_len - 1 {
                    underage_sum += 3;
                }
                if i == 0 {
                    underage_sum += 1;
                }
            }
            i = i + 1;
        }
        ColumnSpace { num_overages, underage_sum, overage_separator_sum }
    }

    /// The second pass: a column over the even share whose width fits within
    /// `max_column_width` joins the fitting ones; the others stay over.
    pub fn fix_almost_column_width(
        self,
        max_per_column: &[usize],
        max_naive_column_width: usize,
        max_column_width: usize,
        headers_len: usize,
    ) -> (r: ColumnSpace)
        requires
            1 <= headers_len <= max_per_column@.len(),
            (self.num_overages as int, self.underage_sum as int, self.overage_separator_sum as int)
                == first_pass(max_per_column@, max_naive_column_width as int, headers_len as int, headers_len as int),
            self.underage_sum + self.overage_separator_sum + self.num_overages * max_column_width <= usize::MAX,
        ensures
            r.num_overages as int == second_pass(max_per_column@, max_naive_column_width as int,
                max_column_width as int, headers_len as int, headers_len as int).0,
            r.underage_sum as int == self.underage_sum + second_pass(max_per_column@, max_naive_column_width as int,
                max_column_width as int, headers_len as int, headers_len as int).1,
            r.overage_separator_sum as int == second_pass(max_per_column@, max_naive_column_width as int,
                max_column_width as int, headers_len as int, headers_len as int).2,
    {
        let mut num_overages: usize = 0;
        let mut overage_separator_sum: usize = 0;
        let mut underage_sum: usize = self.underage_sum;
        let ghost widths = max_per_column@;
        let ghost naive = max_naive_column_width as int;
        let ghost limit = max_column_width as int;
        let ghost k = headers_len as int;
        let ghost fp = first_pass(widths, naive, k, k);
        proof {
            lemma_first_pass_bound(widths, naive, k, k);
        }
        let mut i: usize = 0;
        while i < headers_len
            invariant
                i <= headers_len <= widths.len(),
                widths == max_per_column@,
                naive == max_naive_column_width,
                limit == max_column_width,
                k == headers_len,
                fp == first_pass(widths, naive, k, k),
                0 <= fp.0,
                fp.1 == self.underage_sum,
                self.underage_sum + self.overage_separator_sum + fp.0 * limit <= usize::MAX,
                fp.2 == self.overage_separator_sum,
                num_overages as int == second_pass(widths, naive, limit, k, i as int).0,
                underage_sum as int == self.underage_sum + second_pass(widths, naive, limit, k, i as int).1,
                overage_separator_sum as int == second_pass(widths, naive, limit, k, i as int).2,
            decreases headers_len - i,
        {
            proof {
                lemma_second_pass_bound(widths, naive, limit, k, i + 1);
                lemma_first_pass_bound(widths, naive, k, i + 1);
                lemma_first_pass_mono(widths, naive, k, i + 1, k);
                let p = first_pass(widths, naive, k, i + 1);
                let q = second_pass(widths, naive, limit, k, i + 1);
                assert((p.0 - q.0) * limit <= fp.0 * limit) by (nonlinear_arith)
                    requires 0 <= q.0 <= p.0 <= fp.0, limit >= 0;
            }
            let column_max = max_per_column[i];
            if column_max > max_naive_column_width {
                if column_max <= max_column_width {
                    underage_sum += column_max;
                    if i != headers_len - 1 {
                        underage_sum += 3;
                    }
                    if i == 0 {
                        underage_sum += 1;
                    }
                } else {
                    num_overages += 1;
                    if i != headers_len - 1 {
                        overage_separator_sum += 3;
                    }
                    if i == 0 {
                        overage_separator_sum += 1;
                    }
                }
            }
            i = i + 1;
        }
        ColumnSpace { num_overages, underage_sum, overage_separator_sum }
    }

    /// The width that each column still over its share may take.
    pub fn max_width(&self, termwidth: usize) -> (r: usize)
        requires
            self.num_overages > 0 ==> 1 + self.underage_sum + self.overage_separator_sum <= termwidth,
        ensures
            r as int == overage_width(self.num_overages as int, self.underage_sum as int,
                self.overage_separator_sum as int, termwidth as int),
    {
        if self.num_overages > 0 {
            (termwidth - 1 - self.underage_sum - self.overage_separator_sum) / self.num_overages
        } else {
            99999
        }
    }
}

pub proof fn lemma_first_pass_mono(widths: Seq<usize>, naive: int, k: int, n: int, m: int)
    requires
        0 <= n <= m <= k <= widths.len(),
        naive >= 0,
    ensures
        first_pass(widths, naive, k, n).0 <= first_pass(widths, naive, k, m).0,
        first_pass(widths, naive, k, n).2 <= first_pass(widths, naive, k, m).2,
    decreases m - n,
{
    if n < m {
        lemma_first_pass_mono(widths, naive, k, n, m - 1);
        lemma_first_pass_bound(widths, naive, k, m - 1);
    }
}

} // verus!
