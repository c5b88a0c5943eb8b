//! Digit reversal, divisor enumeration, and the largest product of a window
//! of adjacent grid cells.

use vstd::arithmetic::div_mod::{
    lemma_div_is_ordered_by_denominator, lemma_fundamental_div_mod, lemma_mod_multiples_basic,
};
use vstd::prelude::*;

verus! {

/// The decimal digits of `n`, least significant first. 0 has no digits.
pub open spec fn digits_of(n: nat) -> Seq<nat>
    decreases n,
{
    if n == 0 {
        Seq::empty()
    } else {
        seq![n % 10].add(digits_of(n / 10))
    }
}

/// The number that the digits `d` spell, most significant first.
pub open spec fn number_of(d: Seq<nat>) -> nat
    decreases d.len(),
{
    if d.len() == 0 {
        0
    } else {
        number_of(d.drop_last()) * 10 + d.last()
    }
}

/// `n` with its decimal digits in reverse order.
pub open spec fn reversed_digits(n: nat) -> nat {
    number_of(digits_of(n))
}

/// Further digits never make the number spelled smaller.
proof fn lemma_number_of_grows(d: Seq<nat>, more: Seq<nat>)
    ensures
        number_of(d) <= number_of(d.add(more)),
    decreases more.len(),
{
    if more.len() == 0 {
        assert(d.add(more) =~= d);
    } else {
        lemma_number_of_grows(d, more.drop_last());
        assert(d.add(more).drop_last() =~= d.add(more.drop_last()));
    }
}

/// The power of ten with `k` zeros.
pub open spec fn tens(k: nat) -> nat
    decreases k,
{
    if k == 0 {
        1
    } else {
        10 * tens((k - 1) as nat)
    }
}

/// A number below the power of ten with `k` zeros has at most `k` digits,
/// none of them above 9.
proof fn lemma_digits_count(v: nat, k: nat)
    requires
        v < tens(k),
    ensures
        digits_of(v).len() <= k,
        forall|i: int| 0 <= i < digits_of(v).len() ==> #[trigger] digits_of(v)[i] <= 9,
    decreases k,
{
    if v > 0 {
        lemma_digits_count(v / 10, (k - 1) as nat);
        let rest = digits_of(v / 10);
        assert forall|i: int| 0 <= i < digits_of(v).len() implies #[trigger] digits_of(v)[i]
            <= 9 by {
            if i > 0 {
                assert(digits_of(v)[i] == rest[i - 1]);
            }
        }
    }
}

/// Digits up to 9 spell a number below the power of ten with as many zeros
/// as there are digits.
proof fn lemma_number_of_bound(d: Seq<nat>)
    requires
        forall|i: int| 0 <= i < d.len() ==> #[trigger] d[i] <= 9,
    ensures
        number_of(d) < tens(d.len()),
    decreases d.len(),
{
    if d.len() > 0 {
        lemma_number_of_bound(d.drop_last());
    }
}

/// The powers of ten grow with the number of their zeros.
proof fn lemma_tens_monotonic(a: nat, b: nat)
    requires
        a <= b,
    ensures
        1 <= tens(a) <= tens(b),
    decreases b,
{
    if a < b {
        lemma_tens_monotonic(a, (b - 1) as nat);
    } else if a > 0 {
        lemma_tens_monotonic((a - 1) as nat, (a - 1) as nat);
    }
}

/// Reversing the digits of a number below a power of ten gives a number
/// below that power of ten.
pub proof fn lemma_reversed_digits_bound(v: nat, k: nat)
    requires
        v < tens(k),
    ensures
        reversed_digits(v) < tens(k),
{
    lemma_digits_count(v, k);
    lemma_number_of_bound(digits_of(v));
    lemma_tens_monotonic(digits_of(v).len(), k);
}

/// Values whose decimal digits can be reversed.
pub trait Reversable: Sized {
    /// Whether the reversed value can be represented.
    spec fn reversible(&self) -> bool;

    /// The value with its decimal digits in reverse order.
    spec fn reversed(&self) -> Self;

    /// Reverses the decimal digits.
    fn reverse(&self) -> (r: Self)
        requires
            self.reversible(),
        ensures
            r == self.reversed(),
    ;
}

impl Reversable for usize {
    /// The reversed number fits in a `usize`.
    open spec fn reversible(&self) -> bool {
        reversed_digits(*self as nat) <= usize::MAX
    }

    /// The number that the decimal digits spell when read backwards.
    open spec fn reversed(&self) -> usize {
        reversed_digits(*self as nat) as usize
    }

    /// Moves the digits over one by one, from the least significant end.
    fn reverse(&self) -> (r: usize) {
        let mut val: usize = *self;
        let mut ans: usize = 0;
        let ghost mut read: Seq<nat> = Seq::empty();
        proof {
            assert(read.add(digits_of(val as nat)) =~= digits_of(*self as nat));
        }
        while val > 0
            invariant
                reversed_digits(*self as nat) <= usize::MAX,
                read.add(digits_of(val as nat)) == digits_of(*self as nat),
                ans == number_of(read),
            decreases val,
        {
            let units = val % 10;
            proof {
                let longer = read.push(units as nat);
                let rest = digits_of((val / 10) as nat);
                assert(longer.drop_last() =~= read);
                assert(longer.add(rest) =~= read.add(digits_of(val as nat)));
                lemma_number_of_grows(longer, rest);
                read = longer;
            }
            ans *= 10;
            ans += units;
            val /= 10;
        }
        proof {
            assert(read.add(digits_of(0)) =~= read);
        }
        ans
    }
}

/// How far `k` steps lead in a direction: `k` forward, `-k` backward, or
/// nowhere.
pub open spec fn toward(direction: int, k: int) -> int {
    if direction > 0 {
        k
    } else if direction < 0 {
        -k
    } else {
        0
    }
}

/// The product of the first `len` cells of the line that starts at row `i`,
/// column `j` and runs in the direction `(di, dj)`.
pub open spec fn line_product(
    nums: Seq<Vec<usize>>,
    i: int,
    j: int,
    di: int,
    dj: int,
    len: nat,
) -> int
    decreases len,
{
    if len == 0 {
        1
    } else {
        line_product(nums, i, j, di, dj, (len - 1) as nat) * nums[i + toward(di, len - 1)][j
            + toward(dj, len - 1)]
    }
}

/// The windows that are searched, by start and direction: rightward and
/// diagonal windows start in the first `width - window` columns, downward and
/// down-right windows in the first `height - window` rows, and up-right
/// windows from row `window` on.
pub open spec fn is_window(
    nums: Seq<Vec<usize>>,
    window: nat,
    i: int,
    j: int,
    di: int,
    dj: int,
) -> bool {
    let height = nums.len() as int;
    let width = nums[0].len() as int;
    ||| di == 0 && dj == 1 && 0 <= i < height && 0 <= j < width - window
    ||| di == 1 && dj == 0 && 0 <= i < height - window && 0 <= j < width
    ||| di == 1 && dj == 1 && 0 <= i < height - window && 0 <= j < width - window
    ||| di == -1 && dj == 1 && window <= i < height && 0 <= j < width - window
}

/// All rows are as long as the first.
pub open spec fn is_rectangular(nums: Seq<Vec<usize>>) -> bool {
    forall|r: int| 0 <= r < nums.len() ==> (#[trigger] nums[r]).len() == nums[0].len()
}

/// The cells of the window lie in the grid, and the product of each leading
/// part of the window fits in a `usize`.
pub open spec fn window_fits(
    nums: Seq<Vec<usize>>,
    window: nat,
    i: int,
    j: int,
    di: int,
    dj: int,
) -> bool {
    &&& forall|k: int|
        0 <= k < window ==> 0 <= i + #[trigger] toward(di, k) < nums.len() && 0 <= j + toward(dj, k)
            < nums[0].len()
    &&& forall|k: nat| k <= window ==> #[trigger] line_product(nums, i, j, di, dj, k) <= usize::MAX
}

/// One step of a line through the grid.
enum Step {
    Back,
    Stay,
    Forward,
}

impl Step {
    /// The step as a number: -1, 0 or 1.
    spec fn direction(self) -> int {
        match self {
            Step::Back => -1,
            Step::Stay => 0,
            Step::Forward => 1,
        }
    }

    /// The index `k` steps from `from`.
    fn from(&self, from: usize, k: usize) -> (at: usize)
        requires
            0 <= from + toward(self.direction(), k as int) <= usize::MAX,
        ensures
            at == from + toward(self.direction(), k as int),
    {
        match self {
            Step::Back => from - k,
            Step::Stay => from,
            Step::Forward => from + k,
        }
    }
}

/// The product of the `window` cells from row `i`, column `j` on.
fn window_product(
    nums: &Vec<Vec<usize>>,
    i: usize,
    j: usize,
    di: &Step,
    dj: &Step,
    window: usize,
) -> (item: usize)
    requires
        is_rectangular(nums@),
        nums.len() > 0,
        window_fits(nums@, window as nat, i as int, j as int, di.direction(), dj.direction()),
    ensures
        item == line_product(
            nums@,
            i as int,
            j as int,
            di.direction(),
            dj.direction(),
            window as nat,
        ),
{
    let mut item: usize = 1;
    let mut k: usize = 0;
    while k < window
        invariant
            k <= window,
            is_rectangular(nums@),
            nums.len() > 0,
            window_fits(nums@, window as nat, i as int, j as int, di.direction(), dj.direction()),
            item == line_product(
                nums@,
                i as int,
                j as int,
                di.direction(),
                dj.direction(),
                k as nat,
            ),
        decreases window - k,
    {
        proof {
            assert(0 <= i + toward(di.direction(), k as int) < nums.len());
            assert(line_product(
                nums@,
                i as int,
                j as int,
                di.direction(),
                dj.direction(),
                (k + 1) as nat,
            ) <= usize::MAX);
        }
        let row = di.from(i, k);
        let column = dj.from(j, k);
        assert(nums@[row as int].len() == nums@[0].len());
        item = item * nums[row][column];
        k += 1;
    }
    item
}

/// Whether `(i, j)` is a start in the block of rows `from..to` and columns
/// `0..width`.
spec fn in_block(i: int, j: int, from: int, to: int, width: int) -> bool {
    from <= i < to && 0 <= j < width
}

/// Raises `best` to the largest product of the windows that run in the
/// direction `(di, dj)` and start in the given block.
fn scan(
    nums: &Vec<Vec<usize>>,
    window: usize,
    di: &Step,
    dj: &Step,
    from: usize,
    to: usize,
    width: usize,
    best: usize,
) -> (ans: usize)
    requires
        is_rectangular(nums@),
        nums.len() > 0,
        forall|i: int, j: int| #[trigger]
            in_block(i, j, from as int, to as int, width as int) ==> window_fits(
                nums@,
                window as nat,
                i,
                j,
                di.direction(),
                dj.direction(),
            ),
    ensures
        best <= ans,
        forall|i: int, j: int| #[trigger]
            in_block(i, j, from as int, to as int, width as int) ==> line_product(
                nums@,
                i,
                j,
                di.direction(),
                dj.direction(),
                window as nat,
            ) <= ans,
        ans == best || exists|i: int, j: int| #[trigger]
            in_block(i, j, from as int, to as int, width as int) && line_product(
                nums@,
                i,
                j,
                di.direction(),
                dj.direction(),
                window as nat,
            ) == ans,
{
    let mut ans = best;
    let mut i = from;
    while i < to
        invariant
            is_rectangular(nums@),
            nums.len() > 0,
            from <= i,
            best <= ans,
            forall|a: int, b: int| #[trigger]
                in_block(a, b, from as int, to as int, width as int) ==> window_fits(
                    nums@,
                    window as nat,
                    a,
                    b,
                    di.direction(),
                    dj.direction(),
                ),
            forall|a: int, b: int| #[trigger]
                in_block(a, b, from as int, to as int, width as int) && a < i ==> line_product(
                    nums@,
                    a,
                    b,
                    di.direction(),
                    dj.direction(),
                    window as nat,
                ) <= ans,
            ans == best || exists|a: int, b: int| #[trigger]
                in_block(a, b, from as int, to as int, width as int) && line_product(
                    nums@,
                    a,
                    b,
                    di.direction(),
                    dj.direction(),
                    window as nat,
                ) == ans,
        decreases to - i,
    {
        let mut j: usize = 0;
        while j < width
            invariant
                is_rectangular(nums@),
                nums.len() > 0,
                from <= i < to,
                j <= width,
                best <= ans,
                forall|a: int, b: int| #[trigger]
                    in_block(a, b, from as int, to as int, width as int) ==> window_fits(
                        nums@,
                        window as nat,
                        a,
                        b,
                        di.direction(),
                        dj.direction(),
                    ),
                forall|a: int, b: int| #[trigger]
                    in_block(a, b, from as int, to as int, width as int) && (a < i || (a == i && b
                        < j)) ==> line_product(
                        nums@,
                        a,
                        b,
                        di.direction(),
                        dj.direction(),
                        window as nat,
                    ) <= ans,
                ans == best || exists|a: int, b: int| #[trigger]
                    in_block(a, b, from as int, to as int, width as int) && line_product(
                        nums@,
                        a,
                        b,
                        di.direction(),
                        dj.direction(),
                        window as nat,
                    ) == ans,
            decreases width - j,
        {
            assert(in_block(i as int, j as int, from as int, to as int, width as int));
            let item = window_product(nums, i, j, di, dj, window);
            if item > ans {
                ans = item;
            }
            j += 1;
        }
        i += 1;
    }
    ans
}

/// The largest product of `window` adjacent cells in a row, a column or a
/// diagonal of the grid, over the windows that `is_window` admits; 0 where
/// there is none.
pub fn max_product_window(nums: Vec<Vec<usize>>, window: usize) -> (ans: usize)
    requires
        nums.len() > 0,
        is_rectangular(nums@),
        window <= nums.len(),
        window <= nums[0].len(),
        forall|i: int, j: int, di: int, dj: int, k: nat| #[trigger]
            is_window(nums@, window as nat, i, j, di, dj) && k <= window
                ==> #[trigger] line_product(nums@, i, j, di, dj, k) <= usize::MAX,
    ensures
        forall|i: int, j: int, di: int, dj: int| #[trigger]
            is_window(nums@, window as nat, i, j, di, dj) ==> line_product(
                nums@,
                i,
                j,
                di,
                dj,
                window as nat,
            ) <= ans,
        ans == 0 || exists|i: int, j: int, di: int, dj: int| #[trigger]
            is_window(nums@, window as nat, i, j, di, dj) && line_product(
                nums@,
                i,
                j,
                di,
                dj,
                window as nat,
            ) == ans,
{
    let cols = nums.len();
    let rows = nums[0].len();
    let ghost grid = nums@;
    let ghost w = window as nat;
    proof {
        assert forall|i: int, j: int| #[trigger]
            in_block(i, j, 0, cols as int, (rows - window) as int) implies window_fits(
            grid,
            w,
            i,
            j,
            0,
            1,
        ) by {
            assert(is_window(grid, w, i, j, 0, 1));
        }
    }
    let across = scan(&nums, window, &Step::Stay, &Step::Forward, 0, cols, rows - window, 0);
    proof {
        assert forall|i: int, j: int| #[trigger]
            in_block(i, j, 0, (cols - window) as int, rows as int) implies window_fits(
            grid,
            w,
            i,
            j,
            1,
            0,
        ) by {
            assert(is_window(grid, w, i, j, 1, 0));
        }
    }
    let down = scan(&nums, window, &Step::Forward, &Step::Stay, 0, cols - window, rows, across);
    proof {
        assert forall|i: int, j: int| #[trigger]
            in_block(i, j, 0, (cols - window) as int, (rows - window) as int) implies window_fits(
            grid,
            w,
            i,
            j,
            1,
            1,
        ) by {
            assert(is_window(grid, w, i, j, 1, 1));
        }
    }
    let falling = scan(
        &nums,
        window,
        &Step::Forward,
        &Step::Forward,
        0,
        cols - window,
        rows - window,
        down,
    );
    proof {
        assert forall|i: int, j: int| #[trigger]
            in_block(i, j, window as int, cols as int, (rows - window) as int) implies window_fits(
            grid,
            w,
            i,
            j,
            -1,
            1,
        ) by {
            assert(is_window(grid, w, i, j, -1, 1));
        }
    }
    let ans = scan(
        &nums,
        window,
        &Step::Back,
        &Step::Forward,
        window,
        cols,
        rows - window,
        falling,
    );
    proof {
        assert forall|i: int, j: int, di: int, dj: int| #[trigger]
            is_window(grid, w, i, j, di, dj) implies line_product(grid, i, j, di, dj, w) <= ans by {
            if di == 0 {
                assert(in_block(i, j, 0, cols as int, (rows - window) as int));
            } else if di == 1 && dj == 0 {
                assert(in_block(i, j, 0, (cols - window) as int, rows as int));
            } else if di == 1 {
                assert(in_block(i, j, 0, (cols - window) as int, (rows - window) as int));
            } else {
                assert(in_block(i, j, window as int, cols as int, (rows - window) as int));
            }
        }
        if ans != 0 {
            if ans != falling {
                let (i, j) = choose|i: int, j: int| #[trigger]
                    in_block(i, j, window as int, cols as int, (rows - window) as int)
                        && line_product(grid, i, j, -1, 1, w) == ans;
                assert(is_window(grid, w, i, j, -1, 1));
            } else if falling != down {
                let (i, j) = choose|i: int, j: int| #[trigger]
                    in_block(i, j, 0, (cols - window) as int, (rows - window) as int)
                        && line_product(grid, i, j, 1, 1, w) == falling;
                assert(is_window(grid, w, i, j, 1, 1));
            } else if down != across {
                let (i, j) = choose|i: int, j: int| #[trigger]
                    in_block(i, j, 0, (cols - window) as int, rows as int) && line_product(
                        grid,
                        i,
                        j,
                        1,
                        0,
                        w,
                    ) == down;
                assert(is_window(grid, w, i, j, 1, 0));
            } else {
                let (i, j) = choose|i: int, j: int| #[trigger]
                    in_block(i, j, 0, cols as int, (rows - window) as int) && line_product(
                        grid,
                        i,
                        j,
                        0,
                        1,
                        w,
                    ) == across;
                assert(is_window(grid, w, i, j, 0, 1));
            }
        }
    }
    ans
}

/// The divisors of `n`. 0 has none here.
pub open spec fn divisors_of(n: nat) -> Set<nat> {
    Set::new(|d: nat| 1 <= d <= n && n % d == 0)
}

/// The divisors of `n` that the search has met once it has tried the
/// numbers below `d`: those below `d`, and those whose partner is below `d`.
spec fn met_before(n: nat, d: nat) -> Set<nat> {
    Set::new(|x: nat| divisors_of(n).contains(x) && (x < d || n / x < d))
}

/// A divisor `d` of `n` comes with the partner `n / d`, a divisor too, and
/// each is the other's partner.
proof fn lemma_partner(n: nat, d: nat)
    requires
        1 <= d,
        n % d == 0,
        n >= 1,
    ensures
        d <= n,
        1 <= n / d <= n,
        n % (n / d) == 0,
        n / (n / d) == d,
        n == d * (n / d),
{
    let e = n / d;
    lemma_fundamental_div_mod(n as int, d as int);
    assert(e >= 1 && d <= n && e <= n) by (nonlinear_arith)
        requires
            n == d * e,
            n >= 1,
            d >= 1,
            e >= 0,
    ;
    lemma_mod_multiples_basic(d as int, e as int);
    assert(d * e == e * d) by (nonlinear_arith);
    lemma_fundamental_div_mod(n as int, e as int);
    assert(n / e == d) by (nonlinear_arith)
        requires
            n == e * (n / e),
            n == e * d,
            e >= 1,
    ;
}

/// Before anything has been tried, no divisor has been met.
proof fn lemma_met_nothing(n: nat)
    requires
        n >= 1,
    ensures
        met_before(n, 1) == Set::<nat>::empty(),
{
    assert forall|x: nat| !met_before(n, 1).contains(x) by {
        if divisors_of(n).contains(x) {
            lemma_partner(n, x);
        }
    }
    assert(met_before(n, 1) =~= Set::<nat>::empty());
}

/// Trying `d` adds `d` and its partner to the divisors met where `d` divides
/// `n`, and nothing otherwise.
proof fn lemma_met_step(n: nat, d: nat)
    requires
        1 <= d,
        n >= 1,
        d <= n / d,
    ensures
        n % d == 0 ==> met_before(n, d + 1) == met_before(n, d).insert(d).insert(n / d),
        n % d == 0 ==> !met_before(n, d).contains(d) && !met_before(n, d).contains(n / d),
        n % d != 0 ==> met_before(n, d + 1) == met_before(n, d),
{
    let old = met_before(n, d);
    let new = met_before(n, d + 1);
    if n % d == 0 {
        lemma_partner(n, d);
        let e = n / d;
        assert forall|x: nat| new.contains(x) <==> old.insert(d).insert(e).contains(x) by {
            if divisors_of(n).contains(x) {
                lemma_partner(n, x);
            }
        }
        assert(new =~= old.insert(d).insert(e));
    } else {
        assert forall|x: nat| new.contains(x) <==> old.contains(x) by {
            if divisors_of(n).contains(x) {
                lemma_partner(n, x);
                if n / x == d {
                    lemma_partner(n, n / x);
                }
            }
        }
        assert(new =~= old);
    }
}

/// Once `d` exceeds its own partner, all divisors have been met.
proof fn lemma_met_all(n: nat, d: nat)
    requires
        1 <= d,
        n / d < d,
    ensures
        met_before(n, d) == divisors_of(n),
{
    assert forall|x: nat| divisors_of(n).contains(x) implies met_before(n, d).contains(x) by {
        if x >= d {
            lemma_div_is_ordered_by_denominator(n as int, d as int, x as int);
        }
    }
    assert(met_before(n, d) =~= divisors_of(n));
}

/// A number that is at most its own partner is small enough to be counted
/// twice without overflow.
proof fn lemma_small_half(n: usize, d: usize)
    requires
        1 <= d <= n / d,
    ensures
        d < usize::MAX / 2,
        d <= n,
{
    lemma_fundamental_div_mod(n as int, d as int);
    assert(d * d <= n) by (nonlinear_arith)
        requires
            n == d * (n / d) + n % d,
            n % d >= 0,
            d <= n / d,
            d >= 1,
    ;
    assert(usize::MAX >= 0xffff_ffff);
    if d >= usize::MAX / 2 {
        assert(d * d > usize::MAX) by (nonlinear_arith)
            requires
                d >= usize::MAX / 2,
                usize::MAX >= 0xffff_ffff,
        ;
    }
    assert(d <= d * d) by (nonlinear_arith)
        requires
            d >= 1,
    ;
}

/// The number of divisors of `n`.
pub fn factor_count(n: usize) -> (count: usize)
    ensures
        count == divisors_of(n as nat).len(),
        divisors_of(n as nat).finite(),
{
    if n == 0 {
        assert(divisors_of(0) =~= Set::<nat>::empty());
        return 0;
    }
    let mut count: usize = 0;
    let mut d: usize = 1;
    proof {
        lemma_met_nothing(n as nat);
    }
    while d <= n / d
        invariant
            1 <= d,
            n >= 1,
            met_before(n as nat, d as nat).finite(),
            met_before(n as nat, d as nat).len() == count,
            count <= 2 * (d - 1),
        decreases n + 1 - d,
    {
        proof {
            lemma_small_half(n, d);
            lemma_met_step(n as nat, d as nat);
        }
        if n % d == 0 {
            if d == n / d {
                count += 1;
            } else {
                count += 2;
            }
        }
        d += 1;
    }
    proof {
        lemma_met_all(n as nat, d as nat);
    }
    count
}

/// The divisors of `n` in the order of the search: for each `d` from 1 up
/// to `k` whose square does not exceed `n` and that divides `n`, first `d`,
/// then its partner `n / d` unless that is `d` again or `n` itself.
pub open spec fn divisor_pairs(n: nat, k: nat) -> Seq<usize>
    decreases k,
{
    if k == 0 {
        Seq::empty()
    } else {
        let before = divisor_pairs(n, (k - 1) as nat);
        if k * k <= n && n % k == 0 {
            if n / k != k && n / k != n {
                before.push(k as usize).push((n / k) as usize)
            } else {
                before.push(k as usize)
            }
        } else {
            before
        }
    }
}

/// Numbers whose square exceeds `n` add nothing to the list.
proof fn lemma_divisor_pairs_end(n: nat, d: nat, k: nat)
    requires
        1 <= d,
        n / d < d,
        d - 1 <= k,
    ensures
        divisor_pairs(n, k) == divisor_pairs(n, (d - 1) as nat),
    decreases k,
{
    if k > d - 1 {
        lemma_divisor_pairs_end(n, d, (k - 1) as nat);
        lemma_fundamental_div_mod(n as int, d as int);
        let q = n / d;
        let r = n % d;
        assert(k * k > n) by (nonlinear_arith)
            requires
                k >= d,
                n == d * q + r,
                r < d,
                q < d,
                q >= 0,
        ;
    }
}

/// The divisors of `n` other than `n` itself, and 1 in any case, in the
/// order of `divisor_pairs`. Nothing is listed twice.
pub fn proper_divisors(n: usize) -> (divisors: Vec<usize>)
    ensures
        divisors@ == divisor_pairs(n as nat, n as nat),
        divisors@.no_duplicates(),
        forall|x: usize|
            divisors@.contains(x) <==> divisors_of(n as nat).contains(x as nat) && (x != n || n
                == 1),
{
    let mut divisors: Vec<usize> = Vec::new();
    if n == 0 {
        assert(divisors_of(0) =~= Set::<nat>::empty());
        return divisors;
    }
    let mut d: usize = 1;
    proof {
        lemma_met_nothing(n as nat);
    }
    while d <= n / d
        invariant
            1 <= d,
            n >= 1,
            d - 1 <= n,
            divisors@ == divisor_pairs(n as nat, (d - 1) as nat),
            divisors@.no_duplicates(),
            forall|x: usize|
                divisors@.contains(x) <==> met_before(n as nat, d as nat).contains(x as nat) && (x
                    != n || n == 1),
        decreases n + 1 - d,
    {
        let ghost listed = divisors@;
        proof {
            lemma_small_half(n, d);
            lemma_met_step(n as nat, d as nat);
            lemma_fundamental_div_mod(n as int, d as int);
            let q = n / d;
            let r = n % d;
            assert(d * d <= n) by (nonlinear_arith)
                requires
                    n == d * q + r,
                    r >= 0,
                    d <= q,
                    d >= 1,
            ;
        }
        if n % d == 0 {
            proof {
                lemma_partner(n as nat, d as nat);
            }
            divisors.push(d);
            let other = n / d;
            if other != d && other != n {
                divisors.push(other);
            }
            proof {
                let now = divisors@;
                let met = met_before(n as nat, d as nat);
                assert(d != n || n == 1) by (nonlinear_arith)
                    requires
                        d * d <= n,
                        d >= 1,
                ;
                assert(now[listed.len() as int] == d);
                if other != d && other != n {
                    assert(now[listed.len() as int + 1] == other);
                }
                assert forall|x: usize| now.contains(x) implies met_before(
                    n as nat,
                    (d + 1) as nat,
                ).contains(x as nat) && (x != n || n == 1) by {
                    let at = choose|at: int| 0 <= at < now.len() && now[at] == x;
                    if at < listed.len() {
                        assert(listed[at] == x);
                        assert(listed.contains(x));
                    }
                }
                assert forall|x: usize|
                    met_before(n as nat, (d + 1) as nat).contains(x as nat) && (x != n || n
                        == 1) implies now.contains(x) by {
                    if met.contains(x as nat) {
                        assert(listed.contains(x));
                        let at = choose|at: int| 0 <= at < listed.len() && listed[at] == x;
                        assert(now[at] == x);
                    } else if x == d {
                    } else {
                        assert(x == other);
                    }
                }
                assert(now.no_duplicates()) by {
                    assert(!listed.contains(d));
                    assert(!listed.contains(other));
                    assert forall|a: int, b: int| 0 <= a < b < now.len() implies now[a]
                        != now[b] by {
                        if a < listed.len() {
                            assert(listed.contains(now[a]));
                            if b < listed.len() {
                                assert(listed[a] != listed[b]);
                            }
                        }
                    }
                }
            }
        }
        d += 1;
    }
    proof {
        lemma_met_all(n as nat, d as nat);
        lemma_divisor_pairs_end(n as nat, d as nat, n as nat);
    }
    divisors
}

} // verus!
