//! Issuance schedule: the subsidy and the first ordinal of each height, and which ordinals are uncommon.
use vstd::prelude::*;

verus! {

/// Blocks between two halvings of the subsidy.
pub const HALVING_INTERVAL: u64 = 210000;

/// Subsidy of the first epoch; it fits the length of one encoded range.
pub const INITIAL_SUBSIDY: u64 = 1_000_000;

/// Epochs after which the subsidy is zero in any case.
pub const MAX_EPOCHS: u64 = 64;

/// Subsidy of each block of epoch `e`.
pub open spec fn epoch_subsidy(e: nat) -> nat {
    if e < MAX_EPOCHS {
        (INITIAL_SUBSIDY >> (e as u64)) as nat
    } else {
        0
    }
}

/// First ordinal of epoch `e`: all that the epochs before it issued.
pub open spec fn epoch_start(e: nat) -> nat
    decreases e,
{
    if e == 0 {
        0
    } else {
        (epoch_start((e - 1) as nat) + HALVING_INTERVAL * epoch_subsidy((e - 1) as nat)) as nat
    }
}

/// Subsidy of the block at height `h`.
pub open spec fn subsidy_of(h: nat) -> nat {
    epoch_subsidy(h / (HALVING_INTERVAL as nat))
}

/// First ordinal issued at height `h`: all that the heights before it issued.
pub open spec fn starting_ordinal_of(h: nat) -> nat {
    epoch_start(h / (HALVING_INTERVAL as nat)) + (h % (HALVING_INTERVAL as nat)) * subsidy_of(h)
}

/// Whether `o` is the first ordinal of some block's subsidy, looking from epoch `e` on.
pub open spec fn uncommon_from(o: nat, e: nat) -> bool
    decreases MAX_EPOCHS - e,
{
    if e >= MAX_EPOCHS || epoch_subsidy(e) == 0 {
        false
    } else if o < epoch_start(e + 1) {
        o >= epoch_start(e) && (o - epoch_start(e)) % (epoch_subsidy(e) as int) == 0
    } else {
        uncommon_from(o, e + 1)
    }
}

/// An ordinal is uncommon where it is the first ordinal of a block's subsidy.
pub open spec fn is_uncommon(o: u64) -> bool {
    uncommon_from(o as nat, 0)
}

proof fn lemma_epoch_subsidy_bound(e: nat)
    ensures
        epoch_subsidy(e) <= INITIAL_SUBSIDY,
        e >= 33 ==> epoch_subsidy(e) == 0,
{
    if e < MAX_EPOCHS {
        let s = e as u64;
        assert((1_000_000u64 >> s) <= 1_000_000u64) by (bit_vector);
        assert(s >= 33 ==> (1_000_000u64 >> s) == 0u64) by (bit_vector);
    }
}

proof fn lemma_epoch_start_bound(e: nat)
    ensures
        epoch_start(e) <= e * (HALVING_INTERVAL * INITIAL_SUBSIDY),
    decreases e,
{
    if e > 0 {
        lemma_epoch_start_bound((e - 1) as nat);
        lemma_epoch_subsidy_bound((e - 1) as nat);
        assert(HALVING_INTERVAL * epoch_subsidy((e - 1) as nat) <= HALVING_INTERVAL * INITIAL_SUBSIDY)
            by (nonlinear_arith)
            requires
                epoch_subsidy((e - 1) as nat) <= INITIAL_SUBSIDY,
        ;
        assert((e - 1) * (HALVING_INTERVAL * INITIAL_SUBSIDY) + HALVING_INTERVAL * INITIAL_SUBSIDY
            == e * (HALVING_INTERVAL * INITIAL_SUBSIDY)) by (nonlinear_arith);
    }
}

/// Everything issued up to and including height `h` stays below `2^51`, and one block's
/// subsidy below `2^21`.
pub proof fn lemma_issuance_bound(h: nat)
    ensures
        starting_ordinal_of(h) + subsidy_of(h) < 0x8_0000_0000_0000,
        subsidy_of(h) < 0x20_0000,
{
    let e = h / (HALVING_INTERVAL as nat);
    let within = h % (HALVING_INTERVAL as nat);
    let s = subsidy_of(h);
    lemma_epoch_subsidy_bound(e);
    let e2: nat = if e < 64 { e } else { 64 };
    lemma_epoch_start_bound(e2);
    if e >= 64 {
        lemma_epoch_start_settles(e);
    }
    assert(within * s <= HALVING_INTERVAL * INITIAL_SUBSIDY) by (nonlinear_arith)
        requires
            within < HALVING_INTERVAL,
            s <= INITIAL_SUBSIDY,
    ;
    assert(e2 * (HALVING_INTERVAL * INITIAL_SUBSIDY) <= 64 * (HALVING_INTERVAL * INITIAL_SUBSIDY))
        by (nonlinear_arith)
        requires
            e2 <= 64,
    ;
}

/// From epoch 64 on nothing more is issued.
proof fn lemma_epoch_start_settles(e: nat)
    requires
        e >= MAX_EPOCHS,
    ensures
        epoch_start(e) == epoch_start(MAX_EPOCHS as nat),
    decreases e,
{
    if e > MAX_EPOCHS {
        lemma_epoch_start_settles((e - 1) as nat);
    }
}

/// The subsidy of the epoch `e`, for `e < 64`.
fn epoch_subsidy_exec(e: u64) -> (r: u64)
    ensures
        r == epoch_subsidy(e as nat),
{
    if e < MAX_EPOCHS {
        INITIAL_SUBSIDY >> e
    } else {
        0
    }
}

/// First ordinal of epoch `e`.
fn epoch_start_exec(e: u64) -> (r: u64)
    ensures
        r == epoch_start(e as nat),
{
    let last: u64 = if e < MAX_EPOCHS {
        e
    } else {
        MAX_EPOCHS
    };
    let mut start: u64 = 0;
    let mut i: u64 = 0;
    while i < last
        invariant
            i <= last <= MAX_EPOCHS,
            start == epoch_start(i as nat),
        decreases last - i,
    {
        proof {
            lemma_epoch_start_bound(i as nat);
            lemma_epoch_subsidy_bound(i as nat);
            assert(i * (HALVING_INTERVAL * INITIAL_SUBSIDY) <= 64 * (HALVING_INTERVAL * INITIAL_SUBSIDY))
                by (nonlinear_arith)
                requires
                    i <= 64,
            ;
        }
        start = start + HALVING_INTERVAL * epoch_subsidy_exec(i);
        i = i + 1;
    }
    proof {
        if e >= MAX_EPOCHS {
            lemma_epoch_start_settles(e as nat);
        }
    }
    start
}

/// Subsidy of the block at height `h`.
pub fn subsidy(h: u64) -> (r: u64)
    ensures
        r == subsidy_of(h as nat),
{
    epoch_subsidy_exec(h / HALVING_INTERVAL)
}

/// First ordinal issued at height `h`.
pub fn starting_ordinal(h: u64) -> (r: u64)
    ensures
        r == starting_ordinal_of(h as nat),
        r + subsidy_of(h as nat) <= 100_000_000_000_000_000,
{
    let e = h / HALVING_INTERVAL;
    let start = epoch_start_exec(e);
    let within = h % HALVING_INTERVAL;
    let s = epoch_subsidy_exec(e);
    proof {
        lemma_epoch_start_bound(if e < 64 { e as nat } else { 64 });
        if e >= 64 {
            lemma_epoch_start_settles(e as nat);
        }
        lemma_epoch_subsidy_bound(e as nat);
        assert(within * s <= HALVING_INTERVAL * INITIAL_SUBSIDY) by (nonlinear_arith)
            requires
                within < HALVING_INTERVAL,
                s <= INITIAL_SUBSIDY,
        ;
        assert(e < 64 ==> e * (HALVING_INTERVAL * INITIAL_SUBSIDY) <= 64 * (
        HALVING_INTERVAL * INITIAL_SUBSIDY)) by (nonlinear_arith);
    }
    start + within * s
}

/// Whether the ordinal `o` is common: not the first ordinal of any block's subsidy.
pub fn is_common(o: u64) -> (r: bool)
    ensures
        r == !is_uncommon(o),
{
    let mut e: u64 = 0;
    while e < MAX_EPOCHS
        invariant
            e <= MAX_EPOCHS,
            uncommon_from(o as nat, 0) == uncommon_from(o as nat, e as nat),
        decreases MAX_EPOCHS - e,
    {
        let s = epoch_subsidy_exec(e);
        if s == 0 {
            return true;
        }
        proof {
            lemma_epoch_start_bound((e + 1) as nat);
            assert((e + 1) * (HALVING_INTERVAL * INITIAL_SUBSIDY) <= 64 * (HALVING_INTERVAL
                * INITIAL_SUBSIDY)) by (nonlinear_arith)
                requires
                    e < 64,
            ;
        }
        let next = epoch_start_exec(e + 1);
        if o < next {
            let start = epoch_start_exec(e);
            return o < start || (o - start) % s != 0;
        }
        e = e + 1;
    }
    true
}

} // verus!
