//! The tables of finite state entropy: which symbol each state has, and which states follow it.
use vstd::arithmetic::div_mod::{
    lemma_add_mod_noop, lemma_fundamental_div_mod, lemma_mod_bound, lemma_mod_multiples_basic,
    lemma_mod_twice, lemma_small_mod,
};
use vstd::arithmetic::power2::{
    lemma2_to64, lemma_pow2_adds, lemma_pow2_pos, lemma_pow2_unfold, pow2,
};
use vstd::prelude::*;

use crate::laws::descriptions::used;
use crate::zstd_fse::{
    held, lemma_top_bit, lemma_top_bit_bound, next_cell, rare_cells, spread_cells, stride,
    symbol_cells, table_of, top_bit, weight, FseTableView,
};

verus! {

/// The cell that is visited with number `k`: cells are visited five eighths of the table and three
/// cells apart, round and round.
pub open spec fn visited(size: nat, k: int) -> int {
    (k * (5 * (size as int / 8) + 3)) % (size as int)
}

/// How many of the first `k` cells visited are below `high`.
pub open spec fn low_visits(size: nat, high: int, k: int) -> nat
    decreases k,
{
    if k <= 0 {
        0
    } else {
        low_visits(size, high, k - 1) + if visited(size, k - 1) < high {
            1nat
        } else {
            0
        }
    }
}

/// How many of the first `k` symbols have less than one share.
pub open spec fn rare(shares: Seq<i16>, k: int) -> nat
    decreases k,
{
    if k <= 0 {
        0
    } else {
        rare(shares, k - 1) + if shares[k - 1] == -1 {
            1nat
        } else {
            0
        }
    }
}

/// The first `k` symbols in order, each as often as it has shares.
pub open spec fn listed(shares: Seq<i16>, k: int) -> Seq<u8>
    decreases k,
{
    if k <= 0 {
        seq![]
    } else if shares[k - 1] > 0 {
        listed(shares, k - 1) + Seq::new(shares[k - 1] as nat, |i: int| (k - 1) as u8)
    } else {
        listed(shares, k - 1)
    }
}

/// What the first `k` symbols use of the table.
pub open spec fn all_used(shares: Seq<i16>, k: int) -> nat
    decreases k,
{
    if k <= 0 {
        0
    } else {
        all_used(shares, k - 1) + used(shares[k - 1])
    }
}

/// Whether the shares fill a table of two to the power `log` cells.
pub open spec fn shares_fill(log: nat, shares: Seq<i16>) -> bool {
    &&& 5 <= log <= 9
    &&& 0 < shares.len() <= 256
    &&& forall|x: int| 0 <= x < shares.len() ==> #[trigger] shares[x] >= -1
    &&& all_used(shares, shares.len() as int) == pow2(log)
    &&& rare(shares, shares.len() as int) < pow2(log)
}

proof fn lemma_size(log: nat)
    requires
        5 <= log <= 9,
    ensures
        pow2(log) == 32 || pow2(log) == 64 || pow2(log) == 128 || pow2(log) == 256 || pow2(log)
            == 512,
        stride(pow2(log)) == 5 * (pow2(log) as int / 8) + 3,
        stride(pow2(log)) % 2 == 1,
{
    lemma2_to64();
}

/// A power of two divides a multiple of an odd number only where it divides the other factor.
proof fn lemma_odd(x: int, t: int, n: nat)
    requires
        x >= 0,
        t % 2 == 1,
        t > 0,
        (x * t) % (pow2(n) as int) == 0,
    ensures
        x % (pow2(n) as int) == 0,
    decreases n,
{
    lemma2_to64();
    if n == 0 {
        assert(x % 1 == 0);
    } else {
        let m = (n - 1) as nat;
        lemma_pow2_unfold(n);
        lemma_pow2_pos(m);
        let h = pow2(m) as int;
        let w = pow2(n) as int;
        lemma_fundamental_div_mod(x * t, w);
        let q = (x * t) / w;
        assert(x * t == 2 * (h * q)) by (nonlinear_arith)
            requires
                x * t == w * q,
                w == 2 * h,
        ;
        assert(x % 2 == 0) by {
            if x % 2 == 1 {
                let a = x / 2;
                let b = t / 2;
                assert(x * t == 2 * (2 * a * b + a + b) + 1) by (nonlinear_arith)
                    requires
                        x == 2 * a + 1,
                        t == 2 * b + 1,
                ;
            }
        }
        let y = x / 2;
        assert(y * t == h * q) by (nonlinear_arith)
            requires
                x == 2 * y,
                x * t == 2 * (h * q),
        ;
        assert(h * q == q * h) by (nonlinear_arith);
        vstd::arithmetic::div_mod::lemma_fundamental_div_mod_converse(y * t, h, q, 0);
        lemma_odd(y, t, m);
        lemma_fundamental_div_mod(y, h);
        let r = y / h;
        assert(x == w * r) by (nonlinear_arith)
            requires
                x == 2 * y,
                y == h * r,
                w == 2 * h,
        ;
        assert(w * r == r * w) by (nonlinear_arith);
        vstd::arithmetic::div_mod::lemma_fundamental_div_mod_converse(x, w, r, 0);
    }
}

/// No cell is visited twice before all have been.
proof fn lemma_distinct(log: nat, a: int, b: int)
    requires
        5 <= log <= 9,
        0 <= a < b < pow2(log),
    ensures
        visited(pow2(log), a) != visited(pow2(log), b),
{
    lemma_size(log);
    let size = pow2(log) as int;
    let t = 5 * (size / 8) + 3;
    if visited(pow2(log), a) == visited(pow2(log), b) {
        assert(b * t - a * t == (b - a) * t) by (nonlinear_arith);
        vstd::arithmetic::div_mod::lemma_mod_equivalence(b * t, a * t, size);
        lemma_odd(b - a, t, log);
        lemma_small_mod((b - a) as nat, size as nat);
    }
}

proof fn lemma_visit(size: nat, k: int)
    requires
        size > 0,
        0 <= k,
    ensures
        0 <= visited(size, k) < size,
        visited(size, k + 1) == (visited(size, k) + (5 * (size as int / 8) + 3)) % (size as int),
        visited(size, 0) == 0,
        visited(size, size as int) == 0,
{
    let s = size as int;
    let t = 5 * (s / 8) + 3;
    lemma_mod_bound(k * t, s);
    assert((k + 1) * t == k * t + t) by (nonlinear_arith);
    lemma_add_mod_noop(k * t, t, s);
    lemma_add_mod_noop((k * t) % s, t, s);
    lemma_mod_twice(k * t, s);
    assert(0 * t == 0) by (nonlinear_arith);
    assert(s * t == t * s) by (nonlinear_arith);
    lemma_mod_multiples_basic(t, s);
    lemma_small_mod(0, size);
}

/// At most one of the first `n` visits is to the cell `h`.
proof fn lemma_one_more(log: nat, h: int, n: int)
    requires
        5 <= log <= 9,
        0 <= n <= pow2(log),
    ensures
        low_visits(pow2(log), h, n) <= low_visits(pow2(log), h + 1, n),
        low_visits(pow2(log), h + 1, n) <= low_visits(pow2(log), h, n) + 1,
        (forall|j: int| 0 <= j < n ==> visited(pow2(log), j) != h) ==> low_visits(
            pow2(log),
            h + 1,
            n,
        ) == low_visits(pow2(log), h, n),
    decreases n,
{
    if n > 0 {
        lemma_one_more(log, h, n - 1);
        if visited(pow2(log), n - 1) == h {
            assert forall|j: int| 0 <= j < n - 1 implies visited(pow2(log), j) != h by {
                lemma_distinct(log, j, n - 1);
            }
        }
    }
}

proof fn lemma_low_up(log: nat, h: int)
    requires
        5 <= log <= 9,
        0 <= h <= pow2(log),
    ensures
        low_visits(pow2(log), h, pow2(log) as int) <= h,
    decreases h,
{
    if h == 0 {
        lemma_pow2_pos(log);
        lemma_none_low(pow2(log), pow2(log) as int);
    } else {
        lemma_low_up(log, h - 1);
        lemma_one_more(log, h - 1, pow2(log) as int);
    }
}

proof fn lemma_none_low(size: nat, n: int)
    requires
        size > 0,
    ensures
        low_visits(size, 0, n) == 0,
    decreases n,
{
    if n > 0 {
        lemma_none_low(size, n - 1);
        lemma_visit(size, n - 1);
    }
}

proof fn lemma_all_low(size: nat, n: int)
    requires
        size > 0,
        0 <= n,
    ensures
        low_visits(size, size as int, n) == n,
    decreases n,
{
    if n > 0 {
        lemma_all_low(size, n - 1);
        lemma_visit(size, n - 1);
    }
}

proof fn lemma_low_down(log: nat, h: int)
    requires
        5 <= log <= 9,
        0 <= h <= pow2(log),
    ensures
        low_visits(pow2(log), h, pow2(log) as int) >= h,
    decreases pow2(log) - h,
{
    lemma_pow2_pos(log);
    if h == pow2(log) {
        lemma_all_low(pow2(log), pow2(log) as int);
    } else {
        lemma_low_down(log, h + 1);
        lemma_one_more(log, h, pow2(log) as int);
    }
}

/// Of all visits, as many are to cells below `h` as there are such cells.
proof fn lemma_low_all(log: nat, h: int)
    requires
        5 <= log <= 9,
        0 <= h <= pow2(log),
    ensures
        low_visits(pow2(log), h, pow2(log) as int) == h,
{
    lemma_low_up(log, h);
    lemma_low_down(log, h);
}

/// The first visit from `k` on to a cell below `high`; there is one at the end.
spec fn next_low(size: nat, high: int, k: int) -> int
    decreases size - k,
{
    if k >= size || visited(size, k) < high {
        k
    } else {
        next_low(size, high, k + 1)
    }
}

proof fn lemma_next_low(size: nat, high: int, k: int)
    requires
        size > 0,
        high > 0,
        0 <= k <= size,
    ensures
        k <= next_low(size, high, k) <= size,
        visited(size, next_low(size, high, k)) < high,
        low_visits(size, high, next_low(size, high, k)) == low_visits(size, high, k),
    decreases size - k,
{
    lemma_visit(size, 0);
    if k < size && visited(size, k) >= high {
        lemma_next_low(size, high, k + 1);
    }
}

proof fn lemma_next_cell(size: nat, high: int, k: int, tries: nat)
    requires
        size > 0,
        stride(size) == 5 * (size as int / 8) + 3,
        high > 0,
        0 <= k < size,
        next_low(size, high, k + 1) - k - 1 <= tries,
    ensures
        next_cell(visited(size, k), high, size, tries) == visited(
            size,
            next_low(size, high, k + 1),
        ),
    decreases tries,
{
    lemma_visit(size, k);
    lemma_next_low(size, high, k + 1);
    if k + 1 < size && visited(size, k + 1) >= high {
        assert(tries > 0) by {
            lemma_next_low(size, high, k + 2);
        }
        lemma_next_cell(size, high, k + 1, (tries - 1) as nat);
    } else if k + 1 == size {
        lemma_visit(size, 0);
    }
}

/// Whether the visits before `k` to cells below `high` have left the symbols listed there, one after
/// the other, and the cells from `high` on are those of `base`.
spec fn laid_out(
    size: nat,
    high: int,
    cells: Seq<u8>,
    list: Seq<u8>,
    base: Seq<u8>,
    k: int,
) -> bool {
    &&& cells.len() == size
    &&& 0 <= k <= size
    &&& forall|j: int|
        #![trigger visited(size, j)]
        0 <= j < k && visited(size, j) < high ==> low_visits(size, high, j) < list.len()
            && cells[visited(size, j)] == list[low_visits(size, high, j) as int]
    &&& forall|i: int| high <= i < size ==> cells[i] == base[i]
    &&& forall|i: int|
        0 <= i < size ==> (#[trigger] cells[i]) == base[i] || list.contains(cells[i])
}

proof fn lemma_low_grows(size: nat, high: int, a: int, b: int)
    requires
        0 <= a <= b,
    ensures
        low_visits(size, high, a) <= low_visits(size, high, b),
        a < b && visited(size, a) < high ==> low_visits(size, high, a) < low_visits(size, high, b),
    decreases b - a,
{
    if a < b {
        lemma_low_grows(size, high, a, b - 1);
    }
}

/// A symbol takes its cells.
proof fn lemma_symbol_cells(
    log: nat,
    high: int,
    cells: Seq<u8>,
    list: Seq<u8>,
    base: Seq<u8>,
    k: int,
    s: u8,
    n: nat,
) -> (end: int)
    requires
        5 <= log <= 9,
        0 < high <= pow2(log),
        laid_out(pow2(log), high, cells, list, base, k),
        visited(pow2(log), k) < high,
        low_visits(pow2(log), high, k) == list.len(),
        list.len() + n <= high,
    ensures
        ({
            let size = pow2(log);
            let (c, p) = symbol_cells(cells, visited(size, k), s, n, high, size);
            let more = list + Seq::new(n, |i: int| s);
            &&& laid_out(size, high, c, more, base, end)
            &&& visited(size, end) < high
            &&& low_visits(size, high, end) == more.len()
            &&& p == visited(size, end)
        }),
    decreases n,
{
    let size = pow2(log);
    lemma_size(log);
    if n == 0 {
        assert(list + Seq::new(0, |i: int| s) =~= list);
        k
    } else {
        let m = (n - 1) as nat;
        let j = lemma_symbol_cells(log, high, cells, list, base, k, s, m);
        let (c, p) = symbol_cells(cells, visited(size, k), s, m, high, size);
        let before = list + Seq::new(m, |i: int| s);
        let more = list + Seq::new(n, |i: int| s);
        assert(more =~= before.push(s));
        lemma_low_all(log, high);
        assert(j < size) by {
            if j == size {
                assert(before.len() == high);
            }
        }
        let end = next_low(size, high, j + 1);
        lemma_next_low(size, high, j + 1);
        lemma_next_cell(size, high, j, size);
        let c2 = c.update(p, s);
        lemma_visit(size, j);
        assert(low_visits(size, high, j + 1) == before.len() + 1);
        assert(laid_out(size, high, c2, more, base, end)) by {
            assert forall|i: int|
                #![trigger visited(size, i)]
                0 <= i < end && visited(size, i) < high implies low_visits(size, high, i)
                < more.len() && c2[visited(size, i)] == more[low_visits(size, high, i) as int] by {
                if i < j {
                    lemma_distinct(log, i, j);
                    lemma_low_grows(size, high, i, j);
                    assert(c[visited(size, i)] == before[low_visits(size, high, i) as int]);
                } else if i > j {
                    lemma_low_grows(size, high, j + 1, i);
                    lemma_low_grows(size, high, i, end);
                }
            }
            assert forall|i: int| 0 <= i < size implies (#[trigger] c2[i]) == base[i]
                || more.contains(c2[i]) by {
                if i == p {
                    assert(more[before.len() as int] == s);
                } else if c[i] != base[i] {
                    let q = choose|q: int| 0 <= q < before.len() && before[q] == c[i];
                    assert(more[q] == c[i]);
                }
            }
        }
        end
    }
}

/// The symbols of less than one share take the last cells.
proof fn lemma_rare(shares: Seq<i16>, k: int, size: nat)
    requires
        0 <= k <= shares.len() <= 256,
        rare(shares, k) <= size,
    ensures
        ({
            let (cells, high) = rare_cells(shares, k, size);
            &&& cells.len() == size
            &&& high == size - rare(shares, k)
            &&& forall|i: int| 0 <= i < size ==> (#[trigger] cells[i]) == 0 || cells[i] < k
            &&& forall|x: int|
                #![trigger shares[x]]
                0 <= x < k && shares[x] == -1 ==> rare(shares, x) < size && cells[size - 1 - rare(
                    shares,
                    x,
                )] == x
        }),
    decreases k,
{
    if k > 0 {
        lemma_rare(shares, k - 1, size);
        let (cells, high) = rare_cells(shares, k - 1, size);
        let (after, _) = rare_cells(shares, k, size);
        assert forall|x: int|
            #![trigger shares[x]]
            0 <= x < k && shares[x] == -1 implies rare(shares, x) < size && after[size - 1 - rare(
            shares,
            x,
        )] == x by {
            if x < k - 1 {
                lemma_rare_grows(shares, x, k - 1);
            }
        }
    }
}

proof fn lemma_rare_grows(shares: Seq<i16>, x: int, k: int)
    requires
        0 <= x < k <= shares.len(),
        shares[x] == -1,
    ensures
        rare(shares, x) < rare(shares, k),
    decreases k,
{
    if x < k - 1 {
        lemma_rare_grows(shares, x, k - 1);
    }
}

proof fn lemma_listed_len(shares: Seq<i16>, k: int)
    requires
        0 <= k <= shares.len(),
        forall|x: int| 0 <= x < shares.len() ==> #[trigger] shares[x] >= -1,
    ensures
        listed(shares, k).len() + rare(shares, k) == all_used(shares, k),
    decreases k,
{
    if k > 0 {
        lemma_listed_len(shares, k - 1);
        assert(shares[k - 1] >= -1);
    }
}

proof fn lemma_listed_grows(shares: Seq<i16>, a: int, b: int)
    requires
        0 <= a <= b <= shares.len(),
    ensures
        listed(shares, a).len() <= listed(shares, b).len(),
    decreases b - a,
{
    if a < b {
        lemma_listed_grows(shares, a, b - 1);
    }
}

proof fn lemma_spread(log: nat, shares: Seq<i16>, k: int) -> (end: int)
    requires
        shares_fill(log, shares),
        0 <= k <= shares.len(),
    ensures
        ({
            let size = pow2(log);
            let (base, high) = rare_cells(shares, shares.len() as int, size);
            let (cells, pos) = spread_cells(shares, k, size);
            let list = listed(shares, k);
            &&& laid_out(size, high, cells, list, base, end)
            &&& visited(size, end) < high
            &&& low_visits(size, high, end) == list.len()
            &&& pos == visited(size, end)
        }),
    decreases k,
{
    let n = shares.len() as int;
    let size = pow2(log);
    lemma_pow2_pos(log);
    lemma_rare(shares, n, size);
    let (base, high) = rare_cells(shares, n, size);
    lemma_visit(size, 0);
    if k == 0 {
        0
    } else {
        let j = lemma_spread(log, shares, k - 1);
        let (cells, pos) = spread_cells(shares, k - 1, size);
        if shares[k - 1] <= 0 {
            j
        } else {
            lemma_listed_len(shares, n);
            lemma_listed_grows(shares, k, n);
            lemma_symbol_cells(
                log,
                high,
                cells,
                listed(shares, k - 1),
                base,
                j,
                (k - 1) as u8,
                shares[k - 1] as nat,
            )
        }
    }
}

/// Shares that fill a table give one. The symbols of less than one share have the last states, the
/// first of them the very last. The others have the rest: they are laid out in order, each as often as
/// it has shares, on the cells that are left as these are visited.
pub proof fn law_fse_spread(log: nat, shares: Seq<i16>)
    requires
        shares_fill(log, shares),
    ensures
        table_of(log as int, shares) is Ok,
        table_of(log as int, shares)->Ok_0.accuracy_log == log,
        table_of(log as int, shares)->Ok_0.entries.len() == pow2(log),
        ({
            let size = pow2(log);
            let n = shares.len() as int;
            let high = size - rare(shares, n);
            let entries = table_of(log as int, shares)->Ok_0.entries;
            &&& forall|x: int|
                #![trigger shares[x]]
                0 <= x < n && shares[x] == -1 ==> rare(shares, x) < size && entries[size - 1 - rare(
                    shares,
                    x,
                )].symbol == x
            &&& forall|k: int|
                #![trigger visited(size, k)]
                0 <= k < size && visited(size, k) < high ==> low_visits(size, high, k) < listed(
                    shares,
                    n,
                ).len() && entries[visited(size, k)].symbol == listed(shares, n)[low_visits(
                    size,
                    high,
                    k,
                ) as int]
        }),
{
    let size = pow2(log);
    let n = shares.len() as int;
    lemma_size(log);
    lemma_pow2_pos(log);
    lemma_rare(shares, n, size);
    lemma_listed_len(shares, n);
    let (base, high) = rare_cells(shares, n, size);
    let (cells, pos) = spread_cells(shares, n, size);
    let end = lemma_spread(log, shares, n);
    lemma_low_all(log, high);
    lemma_visit(size, 0);
    assert(end == size) by {
        if end < size {
            lemma_low_grows(size, high, end, size as int);
        }
    }
    let entries = table_of(log as int, shares)->Ok_0.entries;
    assert forall|x: int| #![trigger shares[x]] 0 <= x < n && shares[x] == -1 implies rare(
        shares,
        x,
    ) < size && entries[size - 1 - rare(shares, x)].symbol == x by {
        lemma_rare_grows(shares, x, n);
    }
    assert forall|k: int|
        #![trigger visited(size, k)]
        0 <= k < size && visited(size, k) < high implies low_visits(size, high, k) < listed(
        shares,
        n,
    ).len() && entries[visited(size, k)].symbol == listed(shares, n)[low_visits(
        size,
        high,
        k,
    ) as int] by {
        lemma_visit(size, k);
    }
}

/// How many of the states before `i` have the symbol.
pub open spec fn states_before(t: FseTableView, symbol: u8, i: int) -> nat
    decreases i,
{
    if i <= 0 {
        0
    } else {
        states_before(t, symbol, i - 1) + if t.entries[i - 1].symbol == symbol {
            1nat
        } else {
            0
        }
    }
}

/// The states that may follow a state: those of one symbol are numbered on from its number of shares,
/// and a state's number, shifted by as many bits as are read for the next state, is that state's number
/// above the size of the table.
pub proof fn law_fse_states(log: nat, shares: Seq<i16>, i: int)
    requires
        shares_fill(log, shares),
        0 <= i < pow2(log),
    ensures
        ({
            let t = table_of(log as int, shares)->Ok_0;
            let e = t.entries[i];
            let share = shares[e.symbol as int];
            let number = (if share < 1 {
                1
            } else {
                share as int
            }) + states_before(t, e.symbol, i);
            &&& e.symbol < shares.len()
            &&& pow2(log) <= number * pow2(e.nb_bits as nat) < 2 * pow2(log)
            &&& e.base_state == number * pow2(e.nb_bits as nat) - pow2(log)
        }),
{
    law_fse_spread(log, shares);
    let size = pow2(log);
    let (cells, pos) = spread_cells(shares, shares.len() as int, size);
    let t = table_of(log as int, shares)->Ok_0;
    let s = cells[i];
    lemma_size(log);
    lemma_pow2_pos(log);
    let n = shares.len() as int;
    lemma_rare(shares, n, size);
    let end = lemma_spread(log, shares, n);
    assert(s < n) by {
        let (base, high) = rare_cells(shares, n, size);
        if s != base[i] {
            let list = listed(shares, n);
            let q = choose|q: int| 0 <= q < list.len() && list[q] == s;
            lemma_listed_bound(shares, n, q);
        }
    }
    lemma_states_held(t, cells, s, i);
    if s < shares.len() {
        let state = weight(shares[s as int]) + held(cells, s, i);
        lemma_used_bound(shares, s as int, shares.len() as int);
        lemma_held_bound(cells, s, i);
        lemma_top_bit(state);
        lemma_pow2_unfold((log + 1) as nat);
        lemma_top_bit_bound(state, log);
        let b = top_bit(state);
        let nb = (log - b) as nat;
        lemma_pow2_adds(b, nb);
        lemma_pow2_adds((b + 1) as nat, nb);
        lemma_pow2_pos(nb);
        let p = pow2(nb) as int;
        assert(pow2(b) * p <= state * p < pow2((b + 1) as nat) * p) by (nonlinear_arith)
            requires
                pow2(b) <= state < pow2((b + 1) as nat),
                p > 0,
        ;
    }
}

proof fn lemma_listed_bound(shares: Seq<i16>, k: int, q: int)
    requires
        0 <= k <= shares.len() <= 256,
        0 <= q < listed(shares, k).len(),
    ensures
        listed(shares, k)[q] < k,
    decreases k,
{
    if k > 0 && q < listed(shares, k - 1).len() {
        lemma_listed_bound(shares, k - 1, q);
    }
}

proof fn lemma_states_held(t: FseTableView, cells: Seq<u8>, s: u8, i: int)
    requires
        0 <= i <= t.entries.len(),
        forall|j: int| 0 <= j < t.entries.len() ==> (#[trigger] t.entries[j]).symbol == cells[j],
    ensures
        states_before(t, s, i) == held(cells, s, i),
    decreases i,
{
    if i > 0 {
        lemma_states_held(t, cells, s, i - 1);
        assert(t.entries[i - 1].symbol == cells[i - 1]);
    }
}

proof fn lemma_held_bound(cells: Seq<u8>, s: u8, i: int)
    requires
        0 <= i,
    ensures
        held(cells, s, i) <= i,
    decreases i,
{
    if i > 0 {
        lemma_held_bound(cells, s, i - 1);
    }
}

proof fn lemma_used_bound(shares: Seq<i16>, x: int, k: int)
    requires
        0 <= x < k <= shares.len(),
        forall|y: int| 0 <= y < shares.len() ==> #[trigger] shares[y] >= -1,
    ensures
        used(shares[x]) <= all_used(shares, k),
    decreases k,
{
    if x < k - 1 {
        lemma_used_bound(shares, x, k - 1);
    }
}

} // verus!
