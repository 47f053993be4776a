use vstd::prelude::*;

verus! {

/// The Leonardo recurrence: `L(0) = L(1) = 1`, `L(k) = L(k-1) + L(k-2) + 1`.
///
/// Every sub-heap of order `k` occupies exactly `leonardo_spec(k)` array
/// slots, so this function fixes the geometry of the whole structure.
pub open spec fn leonardo_spec(order: int) -> nat
    decreases order,
{
    if order <= 1 {
        1
    } else {
        leonardo_spec(order - 1) + leonardo_spec(order - 2) + 1
    }
}

/// The Leonardo numbers never decrease with the order.
pub proof fn lemma_leonardo_monotone(j: int, k: int)
    requires
        j <= k,
    ensures
        leonardo_spec(j) <= leonardo_spec(k),
    decreases k - j,
{
    if j < k {
        lemma_leonardo_monotone(j, k - 1);
        if k >= 2 {
            assert(leonardo_spec(k) == leonardo_spec(k - 1) + leonardo_spec(k - 2) + 1);
        }
    }
}

/// The first 64 Leonardo numbers, written out so that proofs about the
/// lookup table can compare each entry against the recurrence.
pub proof fn lemma_leonardo_values()
    ensures
        leonardo_spec(0) == 1,
        leonardo_spec(1) == 1,
        leonardo_spec(2) == 3,
        leonardo_spec(3) == 5,
        leonardo_spec(4) == 9,
        leonardo_spec(5) == 15,
        leonardo_spec(6) == 25,
        leonardo_spec(7) == 41,
        leonardo_spec(8) == 67,
        leonardo_spec(9) == 109,
        leonardo_spec(10) == 177,
        leonardo_spec(11) == 287,
        leonardo_spec(12) == 465,
        leonardo_spec(13) == 753,
        leonardo_spec(14) == 1219,
        leonardo_spec(15) == 1973,
        leonardo_spec(16) == 3193,
        leonardo_spec(17) == 5167,
        leonardo_spec(18) == 8361,
        leonardo_spec(19) == 13529,
        leonardo_spec(20) == 21891,
        leonardo_spec(21) == 35421,
        leonardo_spec(22) == 57313,
        leonardo_spec(23) == 92735,
        leonardo_spec(24) == 150049,
        leonardo_spec(25) == 242785,
        leonardo_spec(26) == 392835,
        leonardo_spec(27) == 635621,
        leonardo_spec(28) == 1028457,
        leonardo_spec(29) == 1664079,
        leonardo_spec(30) == 2692537,
        leonardo_spec(31) == 4356617,
        leonardo_spec(32) == 7049155,
        leonardo_spec(33) == 11405773,
        leonardo_spec(34) == 18454929,
        leonardo_spec(35) == 29860703,
        leonardo_spec(36) == 48315633,
        leonardo_spec(37) == 78176337,
        leonardo_spec(38) == 126491971,
        leonardo_spec(39) == 204668309,
        leonardo_spec(40) == 331160281,
        leonardo_spec(41) == 535828591,
        leonardo_spec(42) == 866988873,
        leonardo_spec(43) == 1402817465,
        leonardo_spec(44) == 2269806339,
        leonardo_spec(45) == 3672623805,
        leonardo_spec(46) == 5942430145,
        leonardo_spec(47) == 9615053951,
        leonardo_spec(48) == 15557484097,
        leonardo_spec(49) == 25172538049,
        leonardo_spec(50) == 40730022147,
        leonardo_spec(51) == 65902560197,
        leonardo_spec(52) == 106632582345,
        leonardo_spec(53) == 172535142543,
        leonardo_spec(54) == 279167724889,
        leonardo_spec(55) == 451702867433,
        leonardo_spec(56) == 730870592323,
        leonardo_spec(57) == 1182573459757,
        leonardo_spec(58) == 1913444052081,
        leonardo_spec(59) == 3096017511839,
        leonardo_spec(60) == 5009461563921,
        leonardo_spec(61) == 8105479075761,
        leonardo_spec(62) == 13114940639683,
        leonardo_spec(63) == 21220419715445,
    {
    assert(leonardo_spec(0) == 1);
    assert(leonardo_spec(1) == 1);
    assert(leonardo_spec(2) == 3);
    assert(leonardo_spec(3) == 5);
    assert(leonardo_spec(4) == 9);
    assert(leonardo_spec(5) == 15);
    assert(leonardo_spec(6) == 25);
    assert(leonardo_spec(7) == 41);
    assert(leonardo_spec(8) == 67);
    assert(leonardo_spec(9) == 109);
    assert(leonardo_spec(10) == 177);
    assert(leonardo_spec(11) == 287);
    assert(leonardo_spec(12) == 465);
    assert(leonardo_spec(13) == 753);
    assert(leonardo_spec(14) == 1219);
    assert(leonardo_spec(15) == 1973);
    assert(leonardo_spec(16) == 3193);
    assert(leonardo_spec(17) == 5167);
    assert(leonardo_spec(18) == 8361);
    assert(leonardo_spec(19) == 13529);
    assert(leonardo_spec(20) == 21891);
    assert(leonardo_spec(21) == 35421);
    assert(leonardo_spec(22) == 57313);
    assert(leonardo_spec(23) == 92735);
    assert(leonardo_spec(24) == 150049);
    assert(leonardo_spec(25) == 242785);
    assert(leonardo_spec(26) == 392835);
    assert(leonardo_spec(27) == 635621);
    assert(leonardo_spec(28) == 1028457);
    assert(leonardo_spec(29) == 1664079);
    assert(leonardo_spec(30) == 2692537);
    assert(leonardo_spec(31) == 4356617);
    assert(leonardo_spec(32) == 7049155);
    assert(leonardo_spec(33) == 11405773);
    assert(leonardo_spec(34) == 18454929);
    assert(leonardo_spec(35) == 29860703);
    assert(leonardo_spec(36) == 48315633);
    assert(leonardo_spec(37) == 78176337);
    assert(leonardo_spec(38) == 126491971);
    assert(leonardo_spec(39) == 204668309);
    assert(leonardo_spec(40) == 331160281);
    assert(leonardo_spec(41) == 535828591);
    assert(leonardo_spec(42) == 866988873);
    assert(leonardo_spec(43) == 1402817465);
    assert(leonardo_spec(44) == 2269806339);
    assert(leonardo_spec(45) == 3672623805);
    assert(leonardo_spec(46) == 5942430145);
    assert(leonardo_spec(47) == 9615053951);
    assert(leonardo_spec(48) == 15557484097);
    assert(leonardo_spec(49) == 25172538049);
    assert(leonardo_spec(50) == 40730022147);
    assert(leonardo_spec(51) == 65902560197);
    assert(leonardo_spec(52) == 106632582345);
    assert(leonardo_spec(53) == 172535142543);
    assert(leonardo_spec(54) == 279167724889);
    assert(leonardo_spec(55) == 451702867433);
    assert(leonardo_spec(56) == 730870592323);
    assert(leonardo_spec(57) == 1182573459757);
    assert(leonardo_spec(58) == 1913444052081);
    assert(leonardo_spec(59) == 3096017511839);
    assert(leonardo_spec(60) == 5009461563921);
    assert(leonardo_spec(61) == 8105479075761);
    assert(leonardo_spec(62) == 13114940639683);
    assert(leonardo_spec(63) == 21220419715445);
}

/// Lookup-table implementation of the Leonardo sequence.
pub fn leonardo_lookup(order: u32) -> (r: u64)
    requires
        order < 64,
    ensures
        r == leonardo_spec(order as int),
{
    proof {
        lemma_leonardo_values();
    }
    match order {
        0 => 1,
        1 => 1,
        2 => 3,
        3 => 5,
        4 => 9,
        5 => 15,
        6 => 25,
        7 => 41,
        8 => 67,
        9 => 109,
        10 => 177,
        11 => 287,
        12 => 465,
        13 => 753,
        14 => 1219,
        15 => 1973,
        16 => 3193,
        17 => 5167,
        18 => 8361,
        19 => 13529,
        20 => 21891,
        21 => 35421,
        22 => 57313,
        23 => 92735,
        24 => 150049,
        25 => 242785,
        26 => 392835,
        27 => 635621,
        28 => 1028457,
        29 => 1664079,
        30 => 2692537,
        31 => 4356617,
        32 => 7049155,
        33 => 11405773,
        34 => 18454929,
        35 => 29860703,
        36 => 48315633,
        37 => 78176337,
        38 => 126491971,
        39 => 204668309,
        40 => 331160281,
        41 => 535828591,
        42 => 866988873,
        43 => 1402817465,
        44 => 2269806339,
        45 => 3672623805,
        46 => 5942430145,
        47 => 9615053951,
        48 => 15557484097,
        49 => 25172538049,
        50 => 40730022147,
        51 => 65902560197,
        52 => 106632582345,
        53 => 172535142543,
        54 => 279167724889,
        55 => 451702867433,
        56 => 730870592323,
        57 => 1182573459757,
        58 => 1913444052081,
        59 => 3096017511839,
        60 => 5009461563921,
        61 => 8105479075761,
        62 => 13114940639683,
        63 => 21220419715445,
        _ => 0,
    }
}

/// Iterative implementation of the Leonardo sequence.  Unlike the table it
/// accepts any order whose Leonardo number still fits in `usize`.
pub fn leonardo_naive(order: u32) -> (r: u64)
    requires
        leonardo_spec(order as int) <= u64::MAX,
    ensures
        r == leonardo_spec(order as int),
{
    if order < 2 {
        return 1;
    }

    let mut n_minus_2: u64 = 1;
    let mut n_minus_1: u64 = 1;

    let mut i: u32 = 2;
    loop
        invariant
            2 <= i <= order,
            n_minus_2 == leonardo_spec(i - 2),
            n_minus_1 == leonardo_spec(i - 1),
            leonardo_spec(order as int) <= u64::MAX,
        decreases order - i,
    {
        proof {
            lemma_leonardo_monotone(i as int, order as int);
        }
        let n: u64 = n_minus_2 + n_minus_1 + 1;
        if i == order {
            return n;
        }
        i = i + 1;
        n_minus_2 = n_minus_1;
        n_minus_1 = n;
    }
}

/// Returns the `order`-th Leonardo number.
/// Only defined for orders less than 64.
pub fn leonardo(order: u32) -> (r: u64)
    requires
        order < 64,
    ensures
        r == leonardo_spec(order as int),
{
    leonardo_lookup(order)
}

/// Sum of the Leonardo numbers of all orders up to and including `order`.
pub open spec fn leonardo_sum(order: int) -> nat
    decreases order + 1,
{
    if order < 0 {
        0
    } else {
        leonardo_sum(order - 1) + leonardo_spec(order)
    }
}

/// Every Leonardo number is at least as large as its order.
pub proof fn lemma_leonardo_ge_order(k: int)
    ensures
        leonardo_spec(k) >= k,
    decreases k,
{
    if k >= 2 {
        lemma_leonardo_ge_order(k - 1);
        lemma_leonardo_ge_order(k - 2);
    }
}

/// Closed form of the prefix sums: `leonardo_sum(o) == L(o + 2) - (o + 2)`.
pub proof fn lemma_leonardo_sum_closed(o: int)
    requires
        o >= -1,
    ensures
        leonardo_sum(o) + o + 2 == leonardo_spec(o + 2),
    decreases o + 1,
{
    if o == -1 {
    } else {
        lemma_leonardo_sum_closed(o - 1);
    }
}

/// Each Leonardo number exceeds the sum of all earlier ones by at most one,
/// which is why the greedy decomposition never strands a remainder.
pub proof fn lemma_leonardo_le_sum(o: int)
    requires
        o >= 0,
    ensures
        leonardo_spec(o) <= leonardo_sum(o - 1) + 1,
{
    if o == 0 {
    } else {
        lemma_leonardo_sum_closed(o - 1);
        lemma_leonardo_ge_order(o - 1);
        assert(leonardo_spec(o + 1) == leonardo_spec(o) + leonardo_spec(o - 1) + 1);
    }
}

} // verus!
