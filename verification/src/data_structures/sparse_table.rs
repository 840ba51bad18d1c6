//! A sparse table: for every position and every power of two, the minimum,
//! maximum or sum of the window of that length that starts there. Minima and
//! maxima of any range are then found from two overlapping windows, sums
//! from a chain of adjacent ones.

use vstd::prelude::*;

verus! {

/// What the windows of a table hold.
#[derive(Debug, Clone, Copy, PartialEq, Eq, Structural)]
pub enum SparseTableType {
    MIN,
    MAX,
    SUM,
}

/// Two to the power `i`.
pub open spec fn two_to(i: nat) -> int
    decreases i,
{
    if i == 0 {
        1
    } else {
        2 * two_to((i - 1) as nat)
    }
}

/// The sum of `s[from..to]`.
pub open spec fn range_sum(s: Seq<i32>, from: int, to: int) -> int
    decreases to - from,
{
    if to <= from {
        0
    } else {
        range_sum(s, from, to - 1) + s[to - 1]
    }
}

/// `m` is the least element of `s[from..to]`.
pub open spec fn is_range_min(s: Seq<i32>, from: int, to: int, m: int) -> bool {
    &&& exists|i: int| from <= i < to && #[trigger] s[i] == m
    &&& forall|i: int| from <= i < to ==> m <= #[trigger] s[i]
}

/// `m` is the greatest element of `s[from..to]`.
pub open spec fn is_range_max(s: Seq<i32>, from: int, to: int, m: int) -> bool {
    &&& exists|i: int| from <= i < to && #[trigger] s[i] == m
    &&& forall|i: int| from <= i < to ==> m >= #[trigger] s[i]
}

/// `value` is what a table of the given type holds for `s[from..to]`.
pub open spec fn summarises(
    kind: SparseTableType,
    s: Seq<i32>,
    from: int,
    to: int,
    value: int,
) -> bool {
    match kind {
        SparseTableType::MIN => is_range_min(s, from, to, value),
        SparseTableType::MAX => is_range_max(s, from, to, value),
        SparseTableType::SUM => value == range_sum(s, from, to),
    }
}

/// The sum of every range of `s` fits in an `i32`.
pub open spec fn sums_fit(s: Seq<i32>) -> bool {
    forall|from: int, to: int|
        0 <= from <= to <= s.len() ==> i32::MIN <= #[trigger] range_sum(s, from, to) <= i32::MAX
}

/// `k` is the number of the highest bit of `n`: two to the `k` does not
/// exceed `n`, but two to the `k + 1` does. For zero it is zero.
pub open spec fn is_floor_log2(n: int, k: nat) -> bool {
    if n <= 0 {
        k == 0
    } else {
        two_to(k) <= n < two_to(k + 1)
    }
}

/// Powers of two are positive and grow with the exponent.
pub proof fn lemma_two_to_monotone(i: nat, j: nat)
    requires
        i <= j,
    ensures
        1 <= two_to(i) <= two_to(j),
    decreases j,
{
    if i < j {
        lemma_two_to_monotone(i, (j - 1) as nat);
    } else if i > 0 {
        lemma_two_to_monotone((i - 1) as nat, (i - 1) as nat);
    }
}

/// A shift of one by less than the width of a `usize` is a power of two.
pub proof fn lemma_shift_is_two_to(i: nat)
    requires
        i < usize::BITS,
    ensures
        (1usize << i) == two_to(i),
        two_to(i) <= usize::MAX,
    decreases i,
{
    if i == 0 {
        assert((1usize << 0) == 1) by (bit_vector);
    } else {
        lemma_shift_is_two_to((i - 1) as nat);
        let j = (i - 1) as usize;
        let high = i as usize;
        assert((1usize << high) == 2 * (1usize << j)) by (bit_vector)
            requires
                high == j + 1,
                high < usize::BITS,
        ;
    }
}

/// Two to the sum of two exponents is the product of the two powers.
pub proof fn lemma_two_to_adds(i: nat, j: nat)
    ensures
        two_to(i + j) == two_to(i) * two_to(j),
    decreases j,
{
    if j == 0 {
        assert(two_to(i) * 1 == two_to(i));
    } else {
        lemma_two_to_adds(i, (j - 1) as nat);
        assert(two_to(i + j) == 2 * two_to((i + j - 1) as nat));
        assert(2 * (two_to(i) * two_to((j - 1) as nat)) == two_to(i) * (2 * two_to((j - 1) as nat)))
            by (nonlinear_arith);
    }
}

/// Two to the width of a `usize` is one more than the largest `usize`.
pub proof fn lemma_two_to_width()
    ensures
        two_to(usize::BITS as nat) == usize::MAX + 1,
{
    assert(two_to(8) == 256) by {
        reveal_with_fuel(two_to, 9);
    }
    lemma_two_to_adds(8, 8);
    lemma_two_to_adds(16, 16);
    lemma_two_to_adds(32, 32);
    assert(two_to(16) == 65536) by (nonlinear_arith)
        requires
            two_to(16) == two_to(8) * two_to(8),
            two_to(8) == 256,
    ;
    assert(two_to(32) == 0x1_0000_0000) by (nonlinear_arith)
        requires
            two_to(32) == two_to(16) * two_to(16),
            two_to(16) == 65536,
    ;
    assert(two_to(64) == 0x1_0000_0000_0000_0000) by (nonlinear_arith)
        requires
            two_to(64) == two_to(32) * two_to(32),
            two_to(32) == 0x1_0000_0000,
    ;
}

/// The highest bit of a number lies below the width of a `usize`.
pub proof fn lemma_floor_log2_small(n: usize, k: nat)
    requires
        is_floor_log2(n as int, k),
    ensures
        k < usize::BITS,
{
    if n > 0 && k >= usize::BITS {
        lemma_two_to_width();
        lemma_two_to_monotone(usize::BITS as nat, k);
    }
}

/// A range sum splits at any point of the range.
pub proof fn lemma_range_sum_split(s: Seq<i32>, from: int, mid: int, to: int)
    requires
        from <= mid <= to,
    ensures
        range_sum(s, from, to) == range_sum(s, from, mid) + range_sum(s, mid, to),
    decreases to - mid,
{
    if mid < to {
        lemma_range_sum_split(s, from, mid, to - 1);
    }
}

/// The number of the highest bit of `n`, and zero for zero.
pub fn floor_log2(n: usize) -> (k: usize)
    ensures
        is_floor_log2(n as int, k as nat),
        k < usize::BITS,
{
    let mut k: usize = 0;
    let mut rest: usize = n;
    let ghost mut power: int = 1;
    proof {
        assert(two_to(0) == 1);
        assert(two_to(1) == 2 * two_to(0));
    }
    while rest > 1
        invariant
            power == two_to(k as nat),
            n > 0 ==> power * rest <= n < power * (rest + 1),
            n > 0 ==> rest >= 1,
            n == 0 ==> rest == 0 && k == 0,
            power >= 1,
            power <= n || n == 0,
            k < usize::BITS,
        decreases rest,
    {
        proof {
            let half = rest / 2;
            assert(2 * power * half <= n && n < 2 * power * (half + 1) && 2 * power <= n)
                by (nonlinear_arith)
                requires
                    power * rest <= n < power * (rest + 1),
                    half == rest / 2,
                    rest >= 2,
                    power >= 1,
            ;
            assert(two_to((k + 1) as nat) == 2 * two_to(k as nat));
            if k + 1 >= usize::BITS {
                lemma_two_to_width();
                lemma_two_to_monotone(usize::BITS as nat, (k + 1) as nat);
            }
            power = 2 * power;
        }
        rest = rest / 2;
        k = k + 1;
    }
    proof {
        assert(two_to((k + 1) as nat) == 2 * two_to(k as nat));
        if n > 0 {
            assert(power <= n < power * 2) by (nonlinear_arith)
                requires
                    power * rest <= n < power * (rest + 1),
                    rest == 1,
            ;
        }
    }
    k
}

/// The numbers and the table over them.
pub struct SparseTable {
    pub st: Vec<Vec<i32>>,
    pub nums: Vec<i32>,
    pub k: usize,
    pub st_type: SparseTableType,
}

impl SparseTable {
    /// Row `i` holds, at every position `j` from which a window of length
    /// two to the `i` fits, what the table's type makes of that window.
    pub open spec fn row_ok(&self, i: int) -> bool {
        &&& self.st[i].len() == self.nums.len()
        &&& forall|j: int|
            0 <= j && j + two_to(i as nat) <= self.nums.len() ==> summarises(
                self.st_type,
                self.nums@,
                j,
                j + two_to(i as nat),
                #[trigger] self.st[i][j] as int,
            )
    }

    /// The table has one row for every power of two up to the length of the
    /// numbers, and every row is sound.
    pub open spec fn wf(&self) -> bool {
        &&& is_floor_log2(self.nums.len() as int, self.k as nat)
        &&& self.st.len() == self.k + 1
        &&& forall|i: int| 0 <= i <= self.k ==> #[trigger] self.row_ok(i)
    }

    /// Builds the table of the given type over `nums`.
    pub fn new(nums: Vec<i32>, st_type: SparseTableType) -> (table: SparseTable)
        requires
            nums.len() < usize::MAX,
            st_type == SparseTableType::SUM ==> sums_fit(nums@),
        ensures
            table.wf(),
            table.nums@ == nums@,
            table.st_type == st_type,
    {
        let n: usize = nums.len();
        let k: usize = floor_log2(n);
        let mut st: Vec<Vec<i32>> = Vec::new();
        let mut first: Vec<i32> = Vec::new();
        let mut j: usize = 0;
        while j < n
            invariant
                n == nums.len(),
                j <= n,
                first.len() == j,
                forall|t: int| 0 <= t < j ==> first[t] == nums[t],
            decreases n - j,
        {
            first.push(nums[j]);
            j = j + 1;
        }
        st.push(first);
        proof {
            assert(two_to(0) == 1);
            assert forall|t: int| 0 <= t && t + two_to(0) <= n implies summarises(
                st_type,
                nums@,
                t,
                t + two_to(0),
                #[trigger] st[0][t] as int,
            ) by {
                assert(range_sum(nums@, t, t) == 0);
                assert(range_sum(nums@, t, t + 1) == range_sum(nums@, t, t) + nums[t]);
                assert(nums@[t] == st[0][t]);
            }
        }
        let mut i: usize = 1;
        while i <= k
            invariant
                n == nums.len(),
                n < usize::MAX,
                1 <= i <= k + 1,
                k < usize::BITS,
                is_floor_log2(n as int, k as nat),
                st_type == SparseTableType::SUM ==> sums_fit(nums@),
                st.len() == i,
                forall|r: int| 0 <= r < i ==> (#[trigger] st[r]).len() == n,
                forall|r: int, t: int|
                    0 <= r < i && 0 <= t && t + two_to(r as nat) <= n ==> summarises(
                        st_type,
                        nums@,
                        t,
                        t + two_to(r as nat),
                        #[trigger] st[r][t] as int,
                    ),
            decreases k + 1 - i,
        {
            let mut row: Vec<i32> = vec![0; n];
            let half: usize = 1 << (i - 1);
            let width: usize = 1 << i;
            proof {
                lemma_shift_is_two_to(i as nat);
                lemma_shift_is_two_to((i - 1) as nat);
                assert(two_to(i as nat) == 2 * two_to((i - 1) as nat));
                lemma_two_to_monotone(i as nat, k as nat);
                lemma_two_to_monotone(0, (i - 1) as nat);
            }
            let mut j: usize = 0;
            while j + width <= n
                invariant
                    n == nums.len(),
                    n < usize::MAX,
                    1 <= i <= k,
                    width == two_to(i as nat),
                    half == two_to((i - 1) as nat),
                    width == 2 * half,
                    half >= 1,
                    width <= n,
                    j + width <= n + 1,
                    st_type == SparseTableType::SUM ==> sums_fit(nums@),
                    st.len() == i,
                    row.len() == n,
                    forall|r: int| 0 <= r < i ==> (#[trigger] st[r]).len() == n,
                    forall|r: int, t: int|
                        0 <= r < i && 0 <= t && t + two_to(r as nat) <= n ==> summarises(
                            st_type,
                            nums@,
                            t,
                            t + two_to(r as nat),
                            #[trigger] st[r][t] as int,
                        ),
                    forall|t: int|
                        0 <= t < j ==> summarises(
                            st_type,
                            nums@,
                            t,
                            t + width,
                            #[trigger] row[t] as int,
                        ),
                decreases n + 1 - j - width,
            {
                let left: i32 = st[i - 1][j];
                let right: i32 = st[i - 1][j + half];
                proof {
                    assert(summarises(st_type, nums@, j as int, j + half, st[i - 1][j as int] as int));
                    assert(summarises(
                        st_type,
                        nums@,
                        j + half,
                        j + half + half,
                        st[i - 1][j + half] as int,
                    ));
                    lemma_range_sum_split(nums@, j as int, j + half, j + width);
                    if st_type == SparseTableType::SUM {
                        assert(i32::MIN <= range_sum(nums@, j as int, j + width) <= i32::MAX);
                    }
                }
                let value: i32 = match st_type {
                    SparseTableType::MIN => if left < right {
                        left
                    } else {
                        right
                    },
                    SparseTableType::MAX => if left > right {
                        left
                    } else {
                        right
                    },
                    SparseTableType::SUM => left + right,
                };
                proof {
                    if st_type == SparseTableType::MIN {
                        let a = choose|a: int| j <= a < j + half && #[trigger] nums@[a] == left;
                        let b = choose|b: int|
                            j + half <= b < j + width && #[trigger] nums@[b] == right;
                        assert(nums@[a] == left);
                        assert(nums@[b] == right);
                    }
                    if st_type == SparseTableType::MAX {
                        let a = choose|a: int| j <= a < j + half && #[trigger] nums@[a] == left;
                        let b = choose|b: int|
                            j + half <= b < j + width && #[trigger] nums@[b] == right;
                        assert(nums@[a] == left);
                        assert(nums@[b] == right);
                    }
                }
                row[j] = value;
                j += 1;
            }
            st.push(row);
            i = i + 1;
        }
        let table = SparseTable { st, nums, k, st_type };
        proof {
            assert forall|r: int| 0 <= r <= table.k implies #[trigger] table.row_ok(r) by {}
        }
        table
    }

    /// The sum of the numbers from position `l` to position `r`, both
    /// included; zero if `l` lies beyond `r`.
    pub fn sum_query(&self, l: usize, r: usize) -> (sum: i32)
        requires
            self.wf(),
            self.st_type == SparseTableType::SUM,
            sums_fit(self.nums@),
            l <= r ==> r < self.nums.len(),
        ensures
            l <= r ==> sum == range_sum(self.nums@, l as int, r + 1),
            l > r ==> sum == 0,
    {
        let mut sum: i32 = 0;
        let mut j: usize = l;
        let mut left: usize = self.k + 1;
        let n: usize = self.nums.len();
        proof {
            lemma_floor_log2_small(n, self.k as nat);
            assert(two_to((self.k + 1) as nat) == 2 * two_to(self.k as nat));
        }
        while left > 0
            invariant
                self.wf(),
                self.st_type == SparseTableType::SUM,
                sums_fit(self.nums@),
                n == self.nums.len(),
                left <= self.k + 1,
                self.k < usize::BITS,
                l <= r ==> r < n && l <= j <= r + 1 && sum == range_sum(
                    self.nums@,
                    l as int,
                    j as int,
                ) && r + 1 - j < two_to(left as nat),
                l > r ==> sum == 0 && j == l,
            decreases left,
        {
            let i: usize = left - 1;
            proof {
                lemma_shift_is_two_to(i as nat);
                assert(two_to(left as nat) == 2 * two_to(i as nat));
            }
            if j <= r && (1 << i) <= r - j + 1 {
                proof {
                    assert(self.row_ok(i as int));
                    assert(summarises(
                        self.st_type,
                        self.nums@,
                        j as int,
                        j + two_to(i as nat),
                        self.st[i as int][j as int] as int,
                    ));
                    lemma_range_sum_split(self.nums@, l as int, j as int, j + two_to(i as nat));
                    assert(i32::MIN <= range_sum(self.nums@, l as int, j + two_to(i as nat))
                        <= i32::MAX);
                }
                sum += self.st[i][j];
                j += 1 << i;
            }
            left = i;
        }
        proof {
            assert(two_to(0) == 1);
        }
        sum
    }

    /// The lesser of the entries for the two windows of the largest
    /// power-of-two length within `l..=r` that start at `l` and end at `r`.
    /// In a table of minima this is the minimum of the numbers from position
    /// `l` to position `r`.
    pub fn min_query(&self, l: usize, r: usize) -> (least: i32)
        requires
            self.wf(),
            l <= r < self.nums.len(),
        ensures
            self.st_type == SparseTableType::MIN ==> is_range_min(
                self.nums@,
                l as int,
                r + 1,
                least as int,
            ),
            exists|i: nat|
                is_floor_log2(r - l + 1, i) && least == (if self.st[i as int][l as int]
                    < self.st[i as int][r + 1 - two_to(i)] {
                    self.st[i as int][l as int]
                } else {
                    self.st[i as int][r + 1 - two_to(i)]
                }),
    {
        let i: usize = floor_log2(r - l + 1);
        proof {
            lemma_shift_is_two_to(i as nat);
            if i > self.k {
                lemma_two_to_monotone((self.k + 1) as nat, i as nat);
            }
            assert(self.row_ok(i as int));
            assert(two_to((i + 1) as nat) == 2 * two_to(i as nat));
        }
        let a: i32 = self.st[i][l];
        let b: i32 = self.st[i][r - ((1 << i) - 1)];
        proof {
            let w = two_to(i as nat);
            assert(summarises(self.st_type, self.nums@, l as int, l + w, a as int));
            assert(summarises(self.st_type, self.nums@, r + 1 - w, r + 1 - w + w, b as int));
            if self.st_type == SparseTableType::MIN {
                let x = choose|x: int| l <= x < l + w && #[trigger] self.nums@[x] == a;
                let y = choose|y: int| r + 1 - w <= y < r + 1 && #[trigger] self.nums@[y] == b;
                assert(self.nums@[x] == a);
                assert(self.nums@[y] == b);
            }
        }
        if a < b {
            a
        } else {
            b
        }
    }

    /// The greater of the entries for the two windows of the largest
    /// power-of-two length within `l..=r` that start at `l` and end at `r`.
    /// In a table of maxima this is the maximum of the numbers from position
    /// `l` to position `r`.
    pub fn max_query(&self, l: usize, r: usize) -> (greatest: i32)
        requires
            self.wf(),
            l <= r < self.nums.len(),
        ensures
            self.st_type == SparseTableType::MAX ==> is_range_max(
                self.nums@,
                l as int,
                r + 1,
                greatest as int,
            ),
            exists|i: nat|
                is_floor_log2(r - l + 1, i) && greatest == (if self.st[i as int][l as int]
                    > self.st[i as int][r + 1 - two_to(i)] {
                    self.st[i as int][l as int]
                } else {
                    self.st[i as int][r + 1 - two_to(i)]
                }),
    {
        let i: usize = floor_log2(r - l + 1);
        proof {
            lemma_shift_is_two_to(i as nat);
            if i > self.k {
                lemma_two_to_monotone((self.k + 1) as nat, i as nat);
            }
            assert(self.row_ok(i as int));
            assert(two_to((i + 1) as nat) == 2 * two_to(i as nat));
        }
        let a: i32 = self.st[i][l];
        let b: i32 = self.st[i][r - ((1 << i) - 1)];
        proof {
            let w = two_to(i as nat);
            assert(summarises(self.st_type, self.nums@, l as int, l + w, a as int));
            assert(summarises(self.st_type, self.nums@, r + 1 - w, r + 1 - w + w, b as int));
            if self.st_type == SparseTableType::MAX {
                let x = choose|x: int| l <= x < l + w && #[trigger] self.nums@[x] == a;
                let y = choose|y: int| r + 1 - w <= y < r + 1 && #[trigger] self.nums@[y] == b;
                assert(self.nums@[x] == a);
                assert(self.nums@[y] == b);
            }
        }
        if a > b {
            a
        } else {
            b
        }
    }
}

/// Builds the table of the given type over `nums`.
pub fn get_sparse_table(nums: Vec<i32>, st_type: SparseTableType) -> (table: SparseTable)
    requires
        nums.len() < usize::MAX,
        st_type == SparseTableType::SUM ==> sums_fit(nums@),
    ensures
        table.wf(),
        table.nums@ == nums@,
        table.st_type == st_type,
{
    SparseTable::new(nums, st_type)
}

} // verus!
