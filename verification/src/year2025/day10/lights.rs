use crate::year2025::day10::SolveError;
use std::collections::HashMap;
use vstd::prelude::*;

verus! {

broadcast use vstd::std_specs::hash::group_hash_axioms;

/// The largest number of buttons the light solver enumerates: each half of
/// the buttons yields at most `2^20` combinations.
pub const MAX_BUTTONS: usize = 40;

/// `2^n`.
pub open spec fn two_pow(n: nat) -> nat
    decreases n,
{
    if n == 0 {
        1
    } else {
        2 * two_pow((n - 1) as nat)
    }
}

/// The mask whose `n` lowest bits are set (all 64 once `n >= 64`).
pub open spec fn low_bits(n: nat) -> u64 {
    if n >= 64 {
        u64::MAX
    } else {
        ((1u64 << (n as u64)) - 1) as u64
    }
}

/// The lights that are on after pressing, once each, the buttons `j` with
/// `pressed[j]`, starting from all lights off: the XOR of their masks.
pub open spec fn toggled(masks: Seq<u64>, pressed: Seq<bool>) -> u64
    decreases masks.len(),
{
    if masks.len() == 0 {
        0
    } else {
        let rest = toggled(masks.drop_last(), pressed.drop_last());
        if pressed.last() {
            rest ^ masks.last()
        } else {
            rest
        }
    }
}

/// The number of buttons pressed.
pub open spec fn press_count(pressed: Seq<bool>) -> nat
    decreases pressed.len(),
{
    if pressed.len() == 0 {
        0
    } else {
        press_count(pressed.drop_last()) + if pressed.last() {
            1nat
        } else {
            0nat
        }
    }
}

/// `pressed` chooses among the buttons and leaves the lights of `target` on,
/// all bits compared.
pub open spec fn reaches_exactly(target: u64, masks: Seq<u64>, pressed: Seq<bool>) -> bool {
    pressed.len() == masks.len() && toggled(masks, pressed) == target
}

/// `pressed` chooses among the buttons and leaves the `light_count` lowest
/// lights as `target` has them.
pub open spec fn lights_match(
    light_count: nat,
    target: u64,
    masks: Seq<u64>,
    pressed: Seq<bool>,
) -> bool {
    pressed.len() == masks.len() && toggled(masks, pressed) & low_bits(light_count) == target
        & low_bits(light_count)
}

/// The parity of the number of set bits of `x`, as `0` or `1`.
pub open spec fn parity(x: u64) -> u64 {
    let a = x ^ (x >> 32);
    let b = a ^ (a >> 16);
    let c = b ^ (b >> 8);
    let d = c ^ (c >> 4);
    let e = d ^ (d >> 2);
    let f = e ^ (e >> 1);
    f & 1
}

/// The `s`-th of the `2^h` ways to press `h` buttons: button `h - 1` is
/// pressed in the upper half of the numbering, and so on downwards.
pub open spec fn subset_at(s: nat, h: nat) -> Seq<bool>
    decreases h,
{
    if h == 0 {
        Seq::empty()
    } else {
        let half = two_pow((h - 1) as nat);
        if s < half {
            subset_at(s, (h - 1) as nat).push(false)
        } else {
            subset_at((s - half) as nat, (h - 1) as nat).push(true)
        }
    }
}

/// The number that `subset_at` gives to `pressed`.
pub open spec fn index_of(pressed: Seq<bool>) -> nat
    decreases pressed.len(),
{
    if pressed.len() == 0 {
        0
    } else {
        index_of(pressed.drop_last()) + if pressed.last() {
            two_pow((pressed.len() - 1) as nat)
        } else {
            0nat
        }
    }
}

/// A higher power of two is no smaller, and none is zero.
pub proof fn lemma_two_pow_monotone(a: nat, b: nat)
    requires
        a <= b,
    ensures
        0 < two_pow(a) <= two_pow(b),
    decreases b,
{
    if b == 0 {
    } else if a == b {
        lemma_two_pow_monotone((a - 1) as nat, (b - 1) as nat);
    } else {
        lemma_two_pow_monotone(a, (b - 1) as nat);
    }
}

/// The twentieth power of two.
pub proof fn lemma_two_pow_20()
    ensures
        two_pow(20) == 1048576,
{
    reveal_with_fuel(two_pow, 21);
}

/// A way to press `h` buttons decides on each of them, and presses no more than `h`.
pub proof fn lemma_subset_at_len(s: nat, h: nat)
    ensures
        subset_at(s, h).len() == h,
        press_count(subset_at(s, h)) <= h,
    decreases h,
{
    if h > 0 {
        let half = two_pow((h - 1) as nat);
        if s < half {
            lemma_subset_at_len(s, (h - 1) as nat);
            assert(subset_at(s, h).drop_last() =~= subset_at(s, (h - 1) as nat));
        } else {
            lemma_subset_at_len((s - half) as nat, (h - 1) as nat);
            assert(subset_at(s, h).drop_last() =~= subset_at((s - half) as nat, (h - 1) as nat));
        }
    }
}

/// Every way to press `h` buttons has a number below `2^h`.
pub proof fn lemma_index_of(pressed: Seq<bool>)
    ensures
        index_of(pressed) < two_pow(pressed.len()),
        subset_at(index_of(pressed), pressed.len()) == pressed,
    decreases pressed.len(),
{
    if pressed.len() > 0 {
        let init = pressed.drop_last();
        lemma_index_of(init);
        lemma_two_pow_monotone(init.len(), init.len());
        assert(pressed =~= init.push(pressed.last()));
    }
}

/// Adding lights has a zero, can be grouped at will, and is undone by
/// adding the same again.
proof fn lemma_xor_facts(a: u64, b: u64, c: u64)
    by (bit_vector)
    ensures
        a ^ 0 == a,
        (a ^ b) ^ c == a ^ (b ^ c),
        (a ^ b == c) <==> (b == c ^ a),
{
}

/// Pressing among `a ++ b` is pressing among `a` and among `b`.
pub proof fn lemma_toggled_concat(a: Seq<u64>, b: Seq<u64>, pa: Seq<bool>, pb: Seq<bool>)
    requires
        pa.len() == a.len(),
        pb.len() == b.len(),
    ensures
        toggled(a + b, pa + pb) == toggled(a, pa) ^ toggled(b, pb),
        press_count(pa + pb) == press_count(pa) + press_count(pb),
    decreases b.len(),
{
    if b.len() == 0 {
        assert(a + b =~= a);
        assert(pa + pb =~= pa);
        lemma_xor_facts(toggled(a, pa), 0, 0);
    } else {
        lemma_toggled_concat(a, b.drop_last(), pa, pb.drop_last());
        assert((a + b).drop_last() =~= a + b.drop_last());
        assert((pa + pb).drop_last() =~= pa + pb.drop_last());
        lemma_xor_facts(toggled(a, pa), toggled(b.drop_last(), pb.drop_last()), b.last());
    }
}


/// One combination of presses among a run of buttons: the lights it leaves
/// on and how many buttons it presses.
#[derive(Clone, Copy, Debug)]
pub struct Combo {
    pub lights: u64,
    pub presses: u32,
}

/// `c` is the `s`-th combination among `masks`.
pub open spec fn is_combo(c: Combo, masks: Seq<u64>, s: int) -> bool {
    &&& c.lights == toggled(masks, subset_at(s as nat, masks.len()))
    &&& c.presses == press_count(subset_at(s as nat, masks.len()))
}

/// A minimal way to light a machine.
#[derive(Debug)]
pub struct LightSolution {
    /// For each button, in input order, whether it is pressed.
    pub pressed: Vec<bool>,
    /// The number of buttons pressed.
    pub presses: u64,
}

proof fn lemma_combo_extend(c: Combo, masks: Seq<u64>, m: u64, s: int)
    requires
        0 <= s < two_pow(masks.len()),
        masks.len() <= 20,
        is_combo(c, masks, s),
    ensures
        is_combo(c, masks.push(m), s),
        is_combo(
            Combo { lights: c.lights ^ m, presses: (c.presses + 1) as u32 },
            masks.push(m),
            s + two_pow(masks.len()),
        ),
        c.presses <= masks.len(),
{
    let h = masks.len();
    let longer = masks.push(m);
    let sub = subset_at(s as nat, h);
    lemma_subset_at_len(s as nat, h);
    assert(longer.drop_last() =~= masks);
    assert(subset_at(s as nat, h + 1) == sub.push(false));
    assert(sub.push(false).drop_last() =~= sub);
    let t = (s + two_pow(h)) as nat;
    assert(subset_at(t, h + 1) == sub.push(true));
    assert(sub.push(true).drop_last() =~= sub);
}

/// The mask whose `n` lowest bits are set.
pub fn all_mask(len: usize) -> (mask: u64)
    ensures
        mask == low_bits(len as nat),
{
    if len >= 64 {
        u64::MAX
    } else {
        let one: u64 = 1;
        let high: u64 = one << (len as u64);
        assert(high >= 1) by (bit_vector)
            requires
                high == 1u64 << (len as u64),
                len < 64,
        ;
        high - 1
    }
}

/// All combinations of presses among `masks[start..end]`, numbered as
/// `subset_at` numbers them.
fn enumerate(masks: &Vec<u64>, start: usize, end: usize) -> (v: Vec<Combo>)
    requires
        start <= end <= masks.len(),
        end - start <= 20,
    ensures
        v.len() == two_pow((end - start) as nat),
        forall|s: int|
            0 <= s < v.len() ==> is_combo(#[trigger] v[s], masks@.subrange(start as int, end as int), s),
{
    let mut v: Vec<Combo> = Vec::new();
    v.push(Combo { lights: 0, presses: 0 });
    let mut j: usize = start;
    proof {
        assert(masks@.subrange(start as int, start as int) =~= Seq::<u64>::empty());
    }
    while j < end
        invariant
            start <= j <= end <= masks.len(),
            end - start <= 20,
            v.len() == two_pow((j - start) as nat),
            forall|s: int|
                0 <= s < v.len() ==> is_combo(
                    #[trigger] v[s],
                    masks@.subrange(start as int, j as int),
                    s,
                ),
        decreases end - j,
    {
        let m = masks[j];
        let len = v.len();
        let ghost before = v@;
        let ghost run = masks@.subrange(start as int, j as int);
        proof {
            lemma_two_pow_monotone((j - start + 1) as nat, 20);
            lemma_two_pow_20();
            assert(masks@.subrange(start as int, j + 1) =~= run.push(m));
        }
        let mut s: usize = 0;
        while s < len
            invariant
                0 <= s <= len,
                len == before.len(),
                len == two_pow(run.len()),
                run.len() <= 20,
                2 * len <= 1048576,
                v.len() == len + s,
                forall|k: int| 0 <= k < len ==> v[k] == before[k],
                forall|k: int| 0 <= k < len ==> is_combo(#[trigger] before[k], run, k),
                forall|k: int|
                    len <= k < len + s ==> is_combo(#[trigger] v[k], run.push(m), k),
            decreases len - s,
        {
            let c = v[s];
            proof {
                assert(c == before[s as int]);
                lemma_combo_extend(c, run, m, s as int);
            }
            v.push(Combo { lights: c.lights ^ m, presses: c.presses + 1 });
            s += 1;
        }
        proof {
            assert forall|k: int| 0 <= k < v.len() implies is_combo(
                #[trigger] v[k],
                run.push(m),
                k,
            ) by {
                if k < len {
                    lemma_combo_extend(before[k], run, m, k);
                }
            }
        }
        j += 1;
    }
    v
}

/// The presses that `subset_at` numbers `s` among `h` buttons.
fn subset_bits(s: usize, h: usize) -> (v: Vec<bool>)
    requires
        h <= 20,
        s < two_pow(h as nat),
    ensures
        v@ == subset_at(s as nat, h as nat),
    decreases h,
{
    if h == 0 {
        Vec::new()
    } else {
        let half = power_of_two(h - 1);
        if s < half {
            let mut v = subset_bits(s, h - 1);
            v.push(false);
            v
        } else {
            let mut v = subset_bits(s - half, h - 1);
            v.push(true);
            v
        }
    }
}

/// `2^h`, for the small `h` the solver works with.
fn power_of_two(h: usize) -> (p: usize)
    requires
        h <= 20,
    ensures
        p == two_pow(h as nat),
        p <= 1048576,
{
    let mut p: usize = 1;
    let mut i: usize = 0;
    while i < h
        invariant
            i <= h <= 20,
            p == two_pow(i as nat),
            p <= 1048576,
        decreases h - i,
    {
        proof {
            lemma_two_pow_monotone((i + 1) as nat, 20);
            lemma_two_pow_20();
        }
        p = p * 2;
        i += 1;
    }
    p
}

/// What the table of the second half holds once the combinations below
/// `done` are entered: under each pattern of lights the cheapest of them
/// that leaves it.
pub open spec fn table_holds(
    table: Map<u64, (u32, usize)>,
    right: Seq<Combo>,
    done: int,
) -> bool {
    &&& forall|k: u64| #[trigger]
        table.contains_key(k) ==> {
            &&& 0 <= table[k].1 < done
            &&& right[table[k].1 as int].lights == k
            &&& right[table[k].1 as int].presses == table[k].0
        }
    &&& forall|r: int|
        0 <= r < done ==> {
            &&& table.contains_key(#[trigger] right[r].lights)
            &&& table[right[r].lights].0 <= right[r].presses
        }
}

fn cheapest_by_lights(right: &Vec<Combo>) -> (table: HashMap<u64, (u32, usize)>)
    ensures
        table_holds(table@, right@, right.len() as int),
{
    let mut table: HashMap<u64, (u32, usize)> = HashMap::new();
    let mut r: usize = 0;
    while r < right.len()
        invariant
            r <= right.len(),
            table_holds(table@, right@, r as int),
        decreases right.len() - r,
    {
        let c = right[r];
        let better = match table.get(&c.lights) {
            Some(entry) => c.presses < entry.0,
            None => true,
        };
        if better {
            table.insert(c.lights, (c.presses, r));
        }
        r += 1;
    }
    table
}

/// A pairing of one combination of each half.
#[derive(Clone, Copy, Debug)]
pub struct Pairing {
    pub left: usize,
    pub right: usize,
    pub presses: u32,
}

/// `best` is the cheapest pairing that leaves `target`, among those whose
/// left combination is numbered below `done`.
pub open spec fn is_cheapest(
    best: Option<Pairing>,
    target: u64,
    left: Seq<Combo>,
    right: Seq<Combo>,
    done: int,
) -> bool {
    &&& best matches Some(p) ==> {
        &&& p.left < left.len()
        &&& p.right < right.len()
        &&& left[p.left as int].lights ^ right[p.right as int].lights == target
        &&& p.presses == left[p.left as int].presses + right[p.right as int].presses
    }
    &&& forall|a: int, b: int|
        0 <= a < done && 0 <= b < right.len() && (#[trigger] left[a]).lights ^ (
        #[trigger] right[b]).lights == target ==> {
            &&& best is Some
            &&& best->0.presses <= left[a].presses + right[b].presses
        }
}

fn cheapest_pairing(target: u64, left: &Vec<Combo>, right: &Vec<Combo>) -> (best: Option<Pairing>)
    requires
        forall|a: int| 0 <= a < left.len() ==> (#[trigger] left[a]).presses <= 20,
        forall|b: int| 0 <= b < right.len() ==> (#[trigger] right[b]).presses <= 20,
    ensures
        is_cheapest(best, target, left@, right@, left.len() as int),
{
    let table = cheapest_by_lights(right);
    let mut best: Option<Pairing> = None;
    let mut a: usize = 0;
    while a < left.len()
        invariant
            a <= left.len(),
            table_holds(table@, right@, right.len() as int),
            is_cheapest(best, target, left@, right@, a as int),
            forall|a: int| 0 <= a < left.len() ==> (#[trigger] left[a]).presses <= 20,
            forall|b: int| 0 <= b < right.len() ==> (#[trigger] right[b]).presses <= 20,
        decreases left.len() - a,
    {
        let c = left[a];
        let wanted = target ^ c.lights;
        proof {
            assert forall|b: int| 0 <= b < right.len() implies ((c.lights ^ (
            #[trigger] right[b]).lights == target) <==> right[b].lights == wanted) by {
                lemma_xor_facts(c.lights, right[b].lights, target);
            }
        }
        match table.get(&wanted) {
            Some(entry) => {
                let total = c.presses + entry.0;
                let improves = match best {
                    Some(p) => total < p.presses,
                    None => true,
                };
                if improves {
                    best = Some(Pairing { left: a, right: entry.1, presses: total });
                }
            },
            None => {},
        }
        a += 1;
    }
    best
}


/// `w` picks lights of which every button toggles an even number, while
/// `target` has an odd number of them on: no pressing can then leave
/// `target`.
pub open spec fn refutes(w: u64, target: u64, masks: Seq<u64>) -> bool {
    &&& parity(w & target) == 1
    &&& forall|j: int| 0 <= j < masks.len() ==> parity(w & #[trigger] masks[j]) == 0
}

/// The parity of a sum is the sum of the parities, and that of nothing is
/// even.
proof fn lemma_parity_xor(w: u64, a: u64, b: u64)
    by (bit_vector)
    ensures
        parity(w & (a ^ b)) == parity(w & a) ^ parity(w & b),
        parity((a ^ b) & w) == parity(a & w) ^ parity(b & w),
        parity(w & 0) == 0,
        parity(0 & w) == 0,
        0u64 ^ 0u64 == 0u64,
{
}

/// Plain facts on masks: what nothing and everything do to one, and that
/// one bit of it is zero or one.
proof fn lemma_plain_bits(x: u64, j: u64)
    by (bit_vector)
    requires
        j < 64,
    ensures
        x & 0 == 0,
        0u64 & x == 0,
        0u64 & !x == 0,
        (0u64 >> j) & 1 == 0,
        x & 0xffff_ffff_ffff_ffffu64 == x,
        (x >> j) & 1 <= 1,
        (x >> j) & 1 != 1 ==> (x >> j) & 1 == 0,
{
}

proof fn lemma_even_stays_even(w: u64, masks: Seq<u64>, pressed: Seq<bool>)
    requires
        forall|j: int| 0 <= j < masks.len() ==> parity(w & #[trigger] masks[j]) == 0,
    ensures
        parity(w & toggled(masks, pressed)) == 0,
    decreases masks.len(),
{
    lemma_parity_xor(w, 0, 0);
    if masks.len() > 0 {
        lemma_even_stays_even(w, masks.drop_last(), pressed.drop_last());
        lemma_parity_xor(w, toggled(masks.drop_last(), pressed.drop_last()), masks.last());
    }
}

/// A machine with a refutation cannot be lit.
pub proof fn lemma_refuted(w: u64, target: u64, masks: Seq<u64>, pressed: Seq<bool>)
    requires
        refutes(w, target, masks),
    ensures
        toggled(masks, pressed) != target,
{
    lemma_even_stays_even(w, masks, pressed);
}

/// Bit `j` of `x` is set.
pub open spec fn has_bit(x: u64, j: int) -> bool {
    0 <= j < 64 && (x >> (j as u64)) & 1 == 1
}

/// The mask of the lowest `j + 1` bits is that of the lowest `j` and bit
/// `j`.
pub proof fn lemma_low_next(j: nat)
    requires
        j < 64,
    ensures
        low_bits(j + 1) == low_bits(j) | (1u64 << (j as u64)),
        low_bits(j) & (1u64 << (j as u64)) == 0,
{
    let jj = j as u64;
    let a = low_bits(j);
    let b = low_bits(j + 1);
    assert(a == ((1u64 << jj) - 1) as u64);
    if j == 63 {
        assert(b == 0xffff_ffff_ffff_ffffu64);
        assert(b == a | (1u64 << jj) && a & (1u64 << jj) == 0) by (bit_vector)
            requires
                jj == 63,
                a == ((1u64 << jj) - 1) as u64,
                b == 0xffff_ffff_ffff_ffffu64,
        ;
    } else {
        let j1 = (j + 1) as u64;
        assert(b == ((1u64 << j1) - 1) as u64);
        assert(b == a | (1u64 << jj) && a & (1u64 << jj) == 0) by (bit_vector)
            requires
                jj < 63,
                j1 == jj + 1,
                a == ((1u64 << jj) - 1) as u64,
                b == ((1u64 << j1) - 1) as u64,
        ;
    }
}

/// No bit is among the lowest none, and every bit among the lowest 64.
pub proof fn lemma_low_ends()
    ensures
        low_bits(0) == 0,
        low_bits(64) == u64::MAX,
{
    let z = low_bits(0);
    assert(z == ((1u64 << 0u64) - 1) as u64);
    assert(z == 0) by (bit_vector)
        requires
            z == ((1u64 << 0u64) - 1) as u64,
    ;
}

/// What a mask with no bit among some and none among the rest is.
proof fn lemma_no_bits(c: u64, keep: u64, x: u64)
    by (bit_vector)
    requires
        c & keep == 0,
        c & !keep == 0,
    ensures
        c == 0,
        parity(c & x) == 0,
{
}

/// One equation of the system holds what it must: its right-hand side is a
/// bit, it has no unknown beyond the buttons, and `comb` names lights that
/// add up to it: the lights of `comb` that button `j` toggles are odd in
/// number where unknown `j` stands in the equation, and those that are to
/// be on are odd in number where its right-hand side is one.
pub open spec fn row_ok(coef: u64, rhs: u64, comb: u64, target: u64, masks: Seq<u64>) -> bool {
    &&& rhs <= 1
    &&& coef & !low_bits(masks.len()) == 0
    &&& parity(comb & target) == rhs
    &&& forall|j: int|
        0 <= j < masks.len() ==> parity(comb & #[trigger] masks[j]) == (coef >> (j as u64)) & 1
}

/// Every equation holds what it must.
pub open spec fn rows_ok(coef: Seq<u64>, rhs: Seq<u64>, comb: Seq<u64>, target: u64, masks: Seq<u64>) -> bool {
    &&& coef.len() == 64
    &&& rhs.len() == 64
    &&& comb.len() == 64
    &&& forall|i: int| 0 <= i < 64 ==> #[trigger] row_ok(coef[i], rhs[i], comb[i], target, masks)
}

/// The sum of two equations that hold what they must does so too.
proof fn lemma_xor_row_ok(
    c1: u64,
    r1: u64,
    w1: u64,
    c2: u64,
    r2: u64,
    w2: u64,
    target: u64,
    masks: Seq<u64>,
)
    requires
        masks.len() <= 64,
        row_ok(c1, r1, w1, target, masks),
        row_ok(c2, r2, w2, target, masks),
    ensures
        row_ok(c1 ^ c2, r1 ^ r2, w1 ^ w2, target, masks),
{
    let keep = low_bits(masks.len());
    assert(r1 ^ r2 <= 1 && (c1 ^ c2) & !keep == 0) by (bit_vector)
        requires
            r1 <= 1,
            r2 <= 1,
            c1 & !keep == 0,
            c2 & !keep == 0,
    ;
    lemma_parity_xor(target, w1, w2);
    assert forall|j: int| 0 <= j < masks.len() implies parity((w1 ^ w2) & #[trigger] masks[j]) == ((
    c1 ^ c2) >> (j as u64)) & 1 by {
        let m = masks[j];
        let jj = j as u64;
        lemma_parity_xor(m, w1, w2);
        assert(((c1 ^ c2) >> jj) & 1 == ((c1 >> jj) & 1) ^ ((c2 >> jj) & 1)) by (bit_vector)
            requires
                jj < 64,
        ;
    }
}

/// The pressing `x`, button `j` pressed where bit `j` is set, solves every
/// equation.
pub open spec fn sat(coef: Seq<u64>, rhs: Seq<u64>, x: u64) -> bool {
    forall|i: int| 0 <= i < coef.len() ==> parity(#[trigger] coef[i] & x) == rhs[i]
}

/// The unknowns of the equations after equation `p` has been added to
/// every other that holds unknown `j`.
pub open spec fn cleared_coef(coef: Seq<u64>, p: int, j: int) -> Seq<u64> {
    Seq::new(
        coef.len(),
        |k: int|
            if k != p && has_bit(coef[k], j) {
                coef[k] ^ coef[p]
            } else {
                coef[k]
            },
    )
}

/// What goes with the equations, after the same.
pub open spec fn cleared_side(side: Seq<u64>, coef: Seq<u64>, p: int, j: int) -> Seq<u64> {
    Seq::new(
        side.len(),
        |k: int|
            if k != p && has_bit(coef[k], j) {
                side[k] ^ side[p]
            } else {
                side[k]
            },
    )
}

/// Adding one equation to others changes nothing in what solves them all.
proof fn lemma_clear_solutions(coef: Seq<u64>, rhs: Seq<u64>, p: int, j: int, x: u64)
    requires
        rhs.len() == coef.len(),
        0 <= p < coef.len(),
    ensures
        sat(cleared_coef(coef, p, j), cleared_side(rhs, coef, p, j), x) == sat(coef, rhs, x),
{
    let coef2 = cleared_coef(coef, p, j);
    let rhs2 = cleared_side(rhs, coef, p, j);
    let cp = coef[p];
    let rp = rhs[p];
    if sat(coef, rhs, x) {
        assert(parity(coef[p] & x) == rp);
        assert forall|i: int| 0 <= i < coef2.len() implies parity(#[trigger] coef2[i] & x)
            == rhs2[i] by {
            let ci = coef[i];
            assert(parity(coef[i] & x) == rhs[i]);
            lemma_parity_xor(x, ci, cp);
        }
    }
    if sat(coef2, rhs2, x) {
        assert(coef2[p] == cp);
        assert(parity(coef2[p] & x) == rhs2[p]);
        assert forall|i: int| 0 <= i < coef.len() implies parity(#[trigger] coef[i] & x)
            == rhs[i] by {
            let ci = coef[i];
            let ri = rhs[i];
            assert(parity(coef2[i] & x) == rhs2[i]);
            if i != p && has_bit(ci, j) {
                let a = parity(ci & x);
                let b = parity(cp & x);
                lemma_parity_xor(x, ci, cp);
                assert(a == ri) by (bit_vector)
                    requires
                        a ^ b == ri ^ rp,
                        b == rp,
                ;
            }
        }
    }
}

/// Adding one equation to others leaves every equation holding what it
/// must.
proof fn lemma_clear_ok(
    coef: Seq<u64>,
    rhs: Seq<u64>,
    comb: Seq<u64>,
    p: int,
    j: int,
    target: u64,
    masks: Seq<u64>,
)
    requires
        masks.len() <= 64,
        0 <= p < 64,
        rows_ok(coef, rhs, comb, target, masks),
    ensures
        rows_ok(
            cleared_coef(coef, p, j),
            cleared_side(rhs, coef, p, j),
            cleared_side(comb, coef, p, j),
            target,
            masks,
        ),
{
    let coef2 = cleared_coef(coef, p, j);
    let rhs2 = cleared_side(rhs, coef, p, j);
    let comb2 = cleared_side(comb, coef, p, j);
    assert(row_ok(coef[p], rhs[p], comb[p], target, masks));
    assert forall|i: int| 0 <= i < 64 implies #[trigger] row_ok(
        coef2[i],
        rhs2[i],
        comb2[i],
        target,
        masks,
    ) by {
        assert(row_ok(coef[i], rhs[i], comb[i], target, masks));
        if i != p && has_bit(coef[i], j) {
            lemma_xor_row_ok(
                coef[i],
                rhs[i],
                comb[i],
                coef[p],
                rhs[p],
                comb[p],
                target,
                masks,
            );
        }
    }
}

/// How far elimination has come when the first `j` unknowns are done: the
/// rows in `used` each hold one of them, `pc` says which, and hold no
/// other unknown of `pivots`, the unknowns that some row holds in this
/// way; the other rows hold none of the first `j` unknowns at all.
pub open spec fn shaped(coef: Seq<u64>, used: Seq<bool>, pc: Seq<int>, pivots: u64, j: int) -> bool {
    &&& coef.len() == 64
    &&& used.len() == 64
    &&& pc.len() == 64
    &&& pivots & !low_bits(j as nat) == 0
    &&& forall|i: int|
        0 <= i < 64 && #[trigger] used[i] ==> 0 <= pc[i] < j && coef[i] & pivots == 1u64 << (
        pc[i] as u64)
    &&& forall|i: int| 0 <= i < 64 && !#[trigger] used[i] ==> coef[i] & low_bits(j as nat) == 0
    &&& forall|i: int, h: int|
        0 <= i < 64 && 0 <= h < 64 && i != h && used[i] && used[h] ==> #[trigger] pc[i]
            != #[trigger] pc[h]
}

/// What the step from unknown `j` to the next makes of the masks that
/// elimination keeps, `a` and `b` being the masks of the unknowns below `j`
/// and up to `j`, `pv` the pivots so far and `cp` a row that is not used
/// and holds unknown `j`.
proof fn lemma_step_bits(ci: u64, cp: u64, pv: u64, a: u64, b: u64, e: u64, jj: u64)
    by (bit_vector)
    requires
        jj < 64,
        b == a | (1u64 << jj),
        pv & !a == 0,
    ensures
        pv & !b == 0,
        (pv | (1u64 << jj)) & !b == 0,
        ci & a == 0 && (ci >> jj) & 1 != 1 ==> ci & b == 0,
        ci & pv == e && (ci >> jj) & 1 != 1 ==> ci & (pv | (1u64 << jj)) == e,
        cp & a == 0 && (cp >> jj) & 1 == 1 ==> cp & (pv | (1u64 << jj)) == 1u64 << jj,
        cp & a == 0 && (cp >> jj) & 1 == 1 && ci & a == 0 && (ci >> jj) & 1 == 1 ==> (ci ^ cp) & b
            == 0,
        cp & a == 0 && (cp >> jj) & 1 == 1 && ci & pv == e && (ci >> jj) & 1 == 1 ==> (ci ^ cp) & (
        pv | (1u64 << jj)) == e,
{
}

/// An unknown that no unused row holds is done.
proof fn lemma_skip_shaped(coef: Seq<u64>, used: Seq<bool>, pc: Seq<int>, pivots: u64, j: int)
    requires
        0 <= j < 64,
        shaped(coef, used, pc, pivots, j),
        forall|i: int| 0 <= i < 64 && !used[i] ==> !has_bit(#[trigger] coef[i], j),
    ensures
        shaped(coef, used, pc, pivots, j + 1),
{
    let jj = j as u64;
    let a = low_bits(j as nat);
    let b = low_bits((j + 1) as nat);
    lemma_low_next(j as nat);
    lemma_step_bits(0, 0, pivots, a, b, 0, jj);
    assert forall|i: int| 0 <= i < 64 && !#[trigger] used[i] implies coef[i] & b == 0 by {
        let c = coef[i];
        assert(!has_bit(c, j));
        lemma_step_bits(c, 0, pivots, a, b, 0, jj);
    }
}

/// An unknown that a row takes is done once the row has been added to
/// every other that holds it.
proof fn lemma_clear_shaped(
    coef: Seq<u64>,
    used: Seq<bool>,
    pc: Seq<int>,
    pivots: u64,
    p: int,
    j: int,
)
    requires
        0 <= j < 64,
        0 <= p < 64,
        shaped(coef, used, pc, pivots, j),
        !used[p],
        has_bit(coef[p], j),
    ensures
        shaped(
            cleared_coef(coef, p, j),
            used.update(p, true),
            pc.update(p, j),
            pivots | (1u64 << (j as u64)),
            j + 1,
        ),
{
    let jj = j as u64;
    let a = low_bits(j as nat);
    let b = low_bits((j + 1) as nat);
    lemma_low_next(j as nat);
    let coef2 = cleared_coef(coef, p, j);
    let used2 = used.update(p, true);
    let pc2 = pc.update(p, j);
    let pv = pivots;
    let pv2 = pivots | (1u64 << jj);
    let cp = coef[p];
    assert(cp & a == 0);
    lemma_step_bits(0, cp, pv, a, b, 0, jj);
    assert forall|i: int| 0 <= i < 64 && #[trigger] used2[i] implies 0 <= pc2[i] < j + 1
        && coef2[i] & pv2 == 1u64 << (pc2[i] as u64) by {
        let ci = coef[i];
        if i == p {
            assert(coef2[i] == cp);
        } else {
            assert(used[i]);
            let e = 1u64 << (pc[i] as u64);
            assert(coef[i] & pv == e);
            lemma_step_bits(ci, cp, pv, a, b, e, jj);
        }
    }
    assert forall|i: int| 0 <= i < 64 && !#[trigger] used2[i] implies coef2[i] & b == 0 by {
        let ci = coef[i];
        assert(!used[i]);
        assert(coef[i] & a == 0);
        lemma_step_bits(ci, cp, pv, a, b, 0, jj);
    }
    assert forall|i: int, h: int|
        0 <= i < 64 && 0 <= h < 64 && i != h && used2[i] && used2[h] implies #[trigger] pc2[i]
        != #[trigger] pc2[h] by {
        if i != p && h != p {
            assert(pc[i] != pc[h]);
        } else if i == p {
            assert(used[h]);
        } else {
            assert(used[i]);
        }
    }
}

/// The pressing that the eliminated equations give, read off the first
/// `k` of them: the unknown of every used row is pressed where the row's
/// right-hand side is one, and nothing else.
pub open spec fn answer(rhs: Seq<u64>, used: Seq<bool>, pc: Seq<int>, k: nat) -> u64
    decreases k,
{
    if k == 0 {
        0
    } else {
        let rest = answer(rhs, used, pc, (k - 1) as nat);
        if used[k - 1] && rhs[k - 1] == 1 {
            rest | (1u64 << (pc[k - 1] as u64))
        } else {
            rest
        }
    }
}

/// What setting bit `cr` makes of a pressing `x` among the pivots `pv`,
/// where `c` is a row that holds the pivot `cr` alone.
proof fn lemma_press_bits(x: u64, c: u64, pv: u64, cr: u64, ci: u64)
    by (bit_vector)
    requires
        cr < 64,
        ci < 64,
        x & !pv == 0,
        c & pv == 1u64 << cr,
    ensures
        (x | (1u64 << cr)) & !pv == 0,
        ((x | (1u64 << cr)) >> cr) & 1 == 1,
        ci != cr ==> ((x | (1u64 << cr)) >> ci) & 1 == (x >> ci) & 1,
        parity(c & x) == (x >> cr) & 1,
{
}

/// The answer presses unknowns of used rows only, and the unknown of each
/// of the first `k` rows as its right-hand side says.
proof fn lemma_answer(
    coef: Seq<u64>,
    rhs: Seq<u64>,
    used: Seq<bool>,
    pc: Seq<int>,
    pivots: u64,
    j: int,
    k: nat,
)
    requires
        0 <= j <= 64,
        k <= 64,
        rhs.len() == 64,
        shaped(coef, used, pc, pivots, j),
        forall|i: int| 0 <= i < 64 ==> #[trigger] rhs[i] <= 1,
    ensures
        answer(rhs, used, pc, k) & !pivots == 0,
        forall|i: int|
            0 <= i < 64 && #[trigger] used[i] ==> (answer(rhs, used, pc, k) >> (pc[i] as u64)) & 1
                == if i < k {
                rhs[i]
            } else {
                0u64
            },
    decreases k,
{
    if k == 0 {
        lemma_plain_bits(pivots, 0);
        assert forall|i: int| 0 <= i < 64 && #[trigger] used[i] implies (answer(rhs, used, pc, k) >> (
        pc[i] as u64)) & 1 == 0u64 by {
            lemma_plain_bits(0, pc[i] as u64);
        }
    } else {
        let r = k - 1;
        let x = answer(rhs, used, pc, r as nat);
        let y = answer(rhs, used, pc, k);
        lemma_answer(coef, rhs, used, pc, pivots, j, r as nat);
        assert(rhs[r] <= 1);
        if used[r] && rhs[r] == 1 {
            let cr = pc[r] as u64;
            let c = coef[r];
            assert(c & pivots == 1u64 << cr);
            lemma_press_bits(x, c, pivots, cr, cr);
            assert forall|i: int| 0 <= i < 64 && #[trigger] used[i] implies (y >> (pc[i] as u64)) & 1
                == if i < k {
                rhs[i]
            } else {
                0u64
            } by {
                let ci = pc[i] as u64;
                if i != r {
                    assert(used[r]);
                    assert(pc[i] != pc[r]);
                }
                lemma_press_bits(x, c, pivots, cr, ci);
            }
        } else {
            assert forall|i: int| 0 <= i < 64 && #[trigger] used[i] implies (y >> (pc[i] as u64)) & 1
                == if i < k {
                rhs[i]
            } else {
                0u64
            } by {
                if i == r {
                    assert(rhs[r] == 0);
                }
            }
        }
    }
}

/// Where the unknowns are done and no unused row asks for one, the
/// answer solves every equation.
proof fn lemma_answer_solves(
    coef: Seq<u64>,
    rhs: Seq<u64>,
    used: Seq<bool>,
    pc: Seq<int>,
    pivots: u64,
    n: int,
)
    requires
        0 <= n <= 64,
        rhs.len() == 64,
        shaped(coef, used, pc, pivots, n),
        forall|i: int| 0 <= i < 64 ==> #[trigger] rhs[i] <= 1,
        forall|i: int| 0 <= i < 64 ==> #[trigger] coef[i] & !low_bits(n as nat) == 0,
        forall|i: int| 0 <= i < 64 && !#[trigger] used[i] ==> rhs[i] == 0,
    ensures
        sat(coef, rhs, answer(rhs, used, pc, 64)),
{
    let x = answer(rhs, used, pc, 64);
    let keep = low_bits(n as nat);
    lemma_answer(coef, rhs, used, pc, pivots, n, 64);
    assert forall|i: int| 0 <= i < coef.len() implies parity(#[trigger] coef[i] & x) == rhs[i] by {
        let c = coef[i];
        assert(rhs[i] <= 1);
        assert(c & !keep == 0);
        if used[i] {
            let ci = pc[i] as u64;
            assert(c & pivots == 1u64 << ci);
            assert((x >> ci) & 1 == rhs[i]);
            lemma_press_bits(x, c, pivots, ci, ci);
        } else {
            assert(c & keep == 0);
            lemma_no_bits(c, keep, x);
        }
    }
}

/// The pressing that `x` stands for among `n` buttons.
pub open spec fn pressing_of(x: u64, n: nat) -> Seq<bool> {
    Seq::new(n, |j: int| has_bit(x, j))
}

/// The equations are those of the machine: equation `i` holds the buttons
/// that toggle light `i`, and asks for the light as `target` has it.
pub open spec fn is_system(coef: Seq<u64>, rhs: Seq<u64>, target: u64, masks: Seq<u64>) -> bool {
    &&& coef.len() == 64
    &&& rhs.len() == 64
    &&& forall|i: int| 0 <= i < 64 ==> #[trigger] is_equation(coef[i], rhs[i], target, masks, i)
}

/// The equation of light `i`: it holds the buttons that toggle the light,
/// and asks for the light as `target` has it.
pub open spec fn is_equation(coef: u64, rhs: u64, target: u64, masks: Seq<u64>, i: int) -> bool {
    &&& coef & !low_bits(masks.len()) == 0
    &&& rhs == (target >> (i as u64)) & 1
    &&& forall|j: int|
        0 <= j < masks.len() ==> (coef >> (j as u64)) & 1 == ((#[trigger] masks[j]) >> (i as u64))
            & 1
}

/// What one more button makes of a light and of its equation, `a` and `b`
/// being the masks of the buttons before it and up to it.
proof fn lemma_button_bits(c: u64, x: u64, t: u64, m: u64, a: u64, b: u64, ii: u64, hh: u64)
    by (bit_vector)
    requires
        ii < 64,
        hh < 64,
        b == a | (1u64 << hh),
        a & (1u64 << hh) == 0,
        (c >> hh) & 1 == (m >> ii) & 1,
    ensures
        (x >> hh) & 1 == 1 ==> ((t ^ m) >> ii) & 1 == parity(c & x & b) ^ parity(c & x & a) ^ ((t
            >> ii) & 1),
        (x >> hh) & 1 != 1 ==> parity(c & x & b) == parity(c & x & a),
        c & !b == 0 ==> c & x & b == c & x,
{
}

/// Light `i` after the first `k` buttons of a pressing is what equation
/// `i` makes of them.
proof fn lemma_link_bit(c: u64, x: u64, masks: Seq<u64>, i: int, k: nat)
    requires
        0 <= i < 64,
        k <= masks.len() <= 64,
        forall|j: int|
            0 <= j < masks.len() ==> (c >> (j as u64)) & 1 == ((#[trigger] masks[j]) >> (i as u64))
                & 1,
    ensures
        (toggled(masks.take(k as int), pressing_of(x, masks.len()).take(k as int)) >> (i as u64))
            & 1 == parity(c & x & low_bits(k)),
    decreases k,
{
    let ii = i as u64;
    let pressed = pressing_of(x, masks.len());
    if k == 0 {
        lemma_low_ends();
        assert(masks.take(0) =~= Seq::<u64>::empty());
        lemma_plain_bits(0, ii);
        lemma_parity_xor(c & x, 0, 0);
    } else {
        let h = (k - 1) as nat;
        let hh = h as u64;
        lemma_link_bit(c, x, masks, i, h);
        lemma_low_next(h);
        let a = low_bits(h);
        let b = low_bits(k);
        let t = toggled(masks.take(h as int), pressed.take(h as int));
        let m = masks[h as int];
        assert(masks.take(k as int).drop_last() =~= masks.take(h as int));
        assert(pressed.take(k as int).drop_last() =~= pressed.take(h as int));
        assert(masks.take(k as int).last() == m);
        assert(pressed.take(k as int).last() == has_bit(x, h as int));
        assert((c >> hh) & 1 == (m >> ii) & 1);
        lemma_button_bits(c, x, t, m, a, b, ii, hh);
        let pa = parity(c & x & a);
        let pb = parity(c & x & b);
        let bit = (t >> ii) & 1;
        if has_bit(x, h as int) {
            lemma_xor_facts(pa, pb, bit);
            assert(pb ^ pa ^ bit == pb) by (bit_vector)
                requires
                    bit == pa,
            ;
        }
    }
}

/// Two masks with the same lowest `k` bits agree on them.
proof fn lemma_same_low(a: u64, b: u64, k: nat)
    requires
        k <= 64,
        forall|i: int| 0 <= i < 64 ==> #[trigger] has_bit(a, i) == has_bit(b, i),
    ensures
        a & low_bits(k) == b & low_bits(k),
    decreases k,
{
    if k == 0 {
        lemma_low_ends();
        lemma_plain_bits(a, 0);
        lemma_plain_bits(b, 0);
    } else {
        let h = (k - 1) as nat;
        let hh = h as u64;
        lemma_same_low(a, b, h);
        lemma_low_next(h);
        let lo = low_bits(h);
        let hi = low_bits(k);
        assert(has_bit(a, h as int) == has_bit(b, h as int));
        assert(a & hi == b & hi) by (bit_vector)
            requires
                a & lo == b & lo,
                hi == lo | (1u64 << hh),
                ((a >> hh) & 1 == 1) == ((b >> hh) & 1 == 1),
                hh < 64,
        ;
    }
}

/// A pressing that solves the equations of the machine leaves its target.
proof fn lemma_link(coef: Seq<u64>, rhs: Seq<u64>, target: u64, masks: Seq<u64>, x: u64)
    requires
        masks.len() <= 64,
        is_system(coef, rhs, target, masks),
        sat(coef, rhs, x),
    ensures
        toggled(masks, pressing_of(x, masks.len())) == target,
{
    let n = masks.len();
    let pressed = pressing_of(x, n);
    let t = toggled(masks, pressed);
    let keep = low_bits(n);
    assert(masks.take(n as int) =~= masks);
    assert(pressed.take(n as int) =~= pressed);
    assert forall|i: int| 0 <= i < 64 implies #[trigger] has_bit(t, i) == has_bit(target, i) by {
        let c = coef[i];
        let ii = i as u64;
        assert(is_equation(coef[i], rhs[i], target, masks, i));
        assert(c & !keep == 0);
        assert(parity(coef[i] & x) == rhs[i]);
        lemma_link_bit(c, x, masks, i, n);
        assert(c & x & keep == c & x) by (bit_vector)
            requires
                c & !keep == 0,
        ;
    }
    lemma_same_low(t, target, 64);
    lemma_low_ends();
    lemma_plain_bits(t, 0);
    lemma_plain_bits(target, 0);
}

/// The equation of light `i`, with the light itself as what it was added
/// up from.
fn equation(target: u64, masks: &Vec<u64>, i: usize) -> (row: (u64, u64, u64))
    requires
        masks.len() <= 64,
        i < 64,
    ensures
        row_ok(row.0, row.1, row.2, target, masks@),
        is_equation(row.0, row.1, target, masks@, i as int),
        row.2 == 1u64 << (i as u64),
{
    let n = masks.len();
    let ii = i as u64;
    let mut coef: u64 = 0;
    let mut j: usize = 0;
    proof {
        lemma_low_ends();
        lemma_plain_bits(0, 0);
    }
    while j < n
        invariant
            j <= n,
            n == masks.len(),
            n <= 64,
            i < 64,
            ii == i,
            coef & !low_bits(j as nat) == 0,
            forall|h: int|
                0 <= h < j ==> (coef >> (h as u64)) & 1 == ((#[trigger] masks[h]) >> ii) & 1,
        decreases n - j,
    {
        let m = masks[j];
        let jj = j as u64;
        let ghost before = coef;
        let ghost a = low_bits(j as nat);
        let ghost b = low_bits((j + 1) as nat);
        proof {
            lemma_low_next(j as nat);
        }
        if (m >> (i as u64)) & 1 == 1 {
            coef = coef | (1u64 << (j as u64));
            proof {
                assert(coef & !b == 0 && (coef >> jj) & 1 == 1) by (bit_vector)
                    requires
                        coef == before | (1u64 << jj),
                        before & !a == 0,
                        b == a | (1u64 << jj),
                        jj < 64,
                ;
                assert forall|h: int| 0 <= h < j implies (coef >> (h as u64)) & 1 == ((
                #[trigger] masks[h]) >> ii) & 1 by {
                    let hh = h as u64;
                    assert(((before | (1u64 << jj)) >> hh) & 1 == (before >> hh) & 1) by (bit_vector)
                        requires
                            hh < jj,
                            jj < 64,
                    ;
                }
            }
        } else {
            proof {
                assert(coef & !b == 0 && (coef >> jj) & 1 == 0) by (bit_vector)
                    requires
                        coef & !a == 0,
                        b == a | (1u64 << jj),
                        a & (1u64 << jj) == 0,
                        jj < 64,
                ;
                lemma_plain_bits(m, ii);
            }
        }
        j += 1;
    }
    let rhs = (target >> (i as u64)) & 1;
    let comb = 1u64 << (i as u64);
    proof {
        lemma_plain_bits(target, ii);
        assert(parity(comb & target) == rhs) by (bit_vector)
            requires
                comb == 1u64 << ii,
                rhs == (target >> ii) & 1,
                ii < 64,
        ;
        assert forall|h: int| 0 <= h < masks.len() implies parity(comb & #[trigger] masks[h]) == (
        coef >> (h as u64)) & 1 by {
            let mh = masks[h];
            assert(parity(comb & mh) == (mh >> ii) & 1) by (bit_vector)
                requires
                    comb == 1u64 << ii,
                    ii < 64,
            ;
        }
    }
    (coef, rhs, comb)
}

/// The first row that is not used and holds unknown `j`; 64 where there is
/// none.
fn find_pivot(coef: &Vec<u64>, used: &Vec<bool>, j: usize) -> (p: usize)
    requires
        coef.len() == 64,
        used.len() == 64,
        j < 64,
    ensures
        p <= 64,
        p < 64 ==> !used[p as int] && has_bit(coef[p as int], j as int),
        forall|i: int| 0 <= i < p && i < 64 && !used[i] ==> !has_bit(#[trigger] coef[i], j as int),
{
    let mut i: usize = 0;
    while i < 64
        invariant
            i <= 64,
            j < 64,
            coef.len() == 64,
            used.len() == 64,
            forall|h: int| 0 <= h < i && !used[h] ==> !has_bit(#[trigger] coef[h], j as int),
        decreases 64 - i,
    {
        if !used[i] && (coef[i] >> (j as u64)) & 1 == 1 {
            return i;
        }
        i += 1;
    }
    64
}

/// Adds row `p` to every other row that holds unknown `j`.
fn clear_column(
    coef: &mut Vec<u64>,
    rhs: &mut Vec<u64>,
    comb: &mut Vec<u64>,
    p: usize,
    j: usize,
)
    requires
        old(coef).len() == 64,
        old(rhs).len() == 64,
        old(comb).len() == 64,
        p < 64,
        j < 64,
    ensures
        final(coef)@ == cleared_coef(old(coef)@, p as int, j as int),
        final(rhs)@ == cleared_side(old(rhs)@, old(coef)@, p as int, j as int),
        final(comb)@ == cleared_side(old(comb)@, old(coef)@, p as int, j as int),
{
    let pivot_coef = coef[p];
    let pivot_rhs = rhs[p];
    let pivot_comb = comb[p];
    let ghost coef0 = coef@;
    let ghost rhs0 = rhs@;
    let ghost comb0 = comb@;
    let mut k: usize = 0;
    while k < 64
        invariant
            k <= 64,
            j < 64,
            p < 64,
            coef.len() == 64,
            rhs.len() == 64,
            comb.len() == 64,
            coef0.len() == 64,
            rhs0.len() == 64,
            comb0.len() == 64,
            pivot_coef == coef0[p as int],
            pivot_rhs == rhs0[p as int],
            pivot_comb == comb0[p as int],
            forall|h: int| k <= h < 64 ==> #[trigger] coef[h] == coef0[h],
            forall|h: int| k <= h < 64 ==> #[trigger] rhs[h] == rhs0[h],
            forall|h: int| k <= h < 64 ==> #[trigger] comb[h] == comb0[h],
            forall|h: int|
                0 <= h < k ==> #[trigger] coef[h] == cleared_coef(coef0, p as int, j as int)[h],
            forall|h: int|
                0 <= h < k ==> #[trigger] rhs[h] == cleared_side(rhs0, coef0, p as int, j as int)[h],
            forall|h: int|
                0 <= h < k ==> #[trigger] comb[h] == cleared_side(
                    comb0,
                    coef0,
                    p as int,
                    j as int,
                )[h],
        decreases 64 - k,
    {
        if k != p && (coef[k] >> (j as u64)) & 1 == 1 {
            let c = coef[k] ^ pivot_coef;
            let r = rhs[k] ^ pivot_rhs;
            let w = comb[k] ^ pivot_comb;
            coef.set(k, c);
            rhs.set(k, r);
            comb.set(k, w);
        }
        k += 1;
    }
    assert(coef@ =~= cleared_coef(coef0, p as int, j as int));
    assert(rhs@ =~= cleared_side(rhs0, coef0, p as int, j as int));
    assert(comb@ =~= cleared_side(comb0, coef0, p as int, j as int));
}

/// Gaussian elimination over GF(2) on the system that has one equation per
/// light and one unknown per button. Each row carries the set of the
/// equations it was added up from. Where a row comes to read `0 = 1`, that
/// set refutes the target, and is handed back. Where none does, the rows
/// give a pressing that leaves the target.
fn eliminate(target: u64, masks: &Vec<u64>) -> (w: Option<u64>)
    requires
        masks.len() <= 64,
    ensures
        match w {
            Some(w) => refutes(w, target, masks@),
            None => exists|p: Seq<bool>| reaches_exactly(target, masks@, p),
        },
{
    let n = masks.len();
    let mut coef: Vec<u64> = Vec::new();
    let mut rhs: Vec<u64> = Vec::new();
    let mut comb: Vec<u64> = Vec::new();
    let mut used: Vec<bool> = Vec::new();
    let mut i: usize = 0;
    while i < 64
        invariant
            i <= 64,
            n == masks.len(),
            n <= 64,
            coef.len() == i,
            rhs.len() == i,
            comb.len() == i,
            used.len() == i,
            forall|h: int| 0 <= h < i ==> !#[trigger] used[h],
            forall|h: int| 0 <= h < i ==> #[trigger] row_ok(coef[h], rhs[h], comb[h], target, masks@),
            forall|h: int|
                0 <= h < i ==> #[trigger] is_equation(coef[h], rhs[h], target, masks@, h),
        decreases 64 - i,
    {
        let row = equation(target, masks, i);
        coef.push(row.0);
        rhs.push(row.1);
        comb.push(row.2);
        used.push(false);
        i += 1;
    }
    let ghost coef0 = coef@;
    let ghost rhs0 = rhs@;
    let ghost mut pc: Seq<int> = Seq::new(64, |i: int| 0int);
    let ghost mut pivots: u64 = 0;
    proof {
        lemma_low_ends();
        lemma_plain_bits(0, 0);
        assert forall|i: int| 0 <= i < 64 && !#[trigger] used[i] implies coef[i] & low_bits(0) == 0 by {
            lemma_plain_bits(coef[i], 0);
        }
    }
    let mut j: usize = 0;
    while j < n
        invariant
            j <= n,
            n == masks.len(),
            n <= 64,
            coef.len() == 64,
            rhs.len() == 64,
            comb.len() == 64,
            used.len() == 64,
            is_system(coef0, rhs0, target, masks@),
            rows_ok(coef@, rhs@, comb@, target, masks@),
            shaped(coef@, used@, pc, pivots, j as int),
            forall|x: u64| sat(coef@, rhs@, x) == sat(coef0, rhs0, x),
        decreases n - j,
    {
        let pivot = find_pivot(&coef, &used, j);
        if pivot < 64 {
            let ghost coef1 = coef@;
            let ghost rhs1 = rhs@;
            let ghost comb1 = comb@;
            let ghost used1 = used@;
            clear_column(&mut coef, &mut rhs, &mut comb, pivot, j);
            used.set(pivot, true);
            proof {
                lemma_clear_ok(coef1, rhs1, comb1, pivot as int, j as int, target, masks@);
                lemma_clear_shaped(coef1, used1, pc, pivots, pivot as int, j as int);
                assert forall|x: u64| sat(coef@, rhs@, x) == sat(coef0, rhs0, x) by {
                    lemma_clear_solutions(coef1, rhs1, pivot as int, j as int, x);
                }
                pc = pc.update(pivot as int, j as int);
                pivots = pivots | (1u64 << (j as u64));
            }
        } else {
            proof {
                lemma_skip_shaped(coef@, used@, pc, pivots, j as int);
            }
        }
        j += 1;
    }
    let mut i: usize = 0;
    while i < 64
        invariant
            i <= 64,
            n == masks.len(),
            n <= 64,
            coef.len() == 64,
            rhs.len() == 64,
            comb.len() == 64,
            rows_ok(coef@, rhs@, comb@, target, masks@),
            forall|h: int| 0 <= h < i ==> !(#[trigger] coef[h] == 0 && rhs[h] == 1),
        decreases 64 - i,
    {
        if coef[i] == 0 && rhs[i] == 1 {
            proof {
                let w = comb[i as int];
                assert(row_ok(coef[i as int], rhs[i as int], w, target, masks@));
                assert forall|j: int| 0 <= j < masks.len() implies parity(w & #[trigger] masks[j])
                    == 0 by {
                    lemma_plain_bits(0, j as u64);
                }
            }
            return Some(comb[i]);
        }
        i += 1;
    }
    proof {
        let keep = low_bits(n as nat);
        assert forall|i: int| 0 <= i < 64 implies #[trigger] rhs[i] <= 1 by {
            assert(row_ok(coef[i], rhs[i], comb[i], target, masks@));
        }
        assert forall|i: int| 0 <= i < 64 implies #[trigger] coef[i] & !keep == 0 by {
            assert(row_ok(coef[i], rhs[i], comb[i], target, masks@));
        }
        assert forall|i: int| 0 <= i < 64 && !#[trigger] used[i] implies rhs[i] == 0 by {
            let c = coef[i];
            assert(row_ok(coef[i], rhs[i], comb[i], target, masks@));
            assert(c & keep == 0);
            lemma_no_bits(c, keep, 0);
            assert(!(coef[i] == 0 && rhs[i] == 1));
        }
        lemma_answer_solves(coef@, rhs@, used@, pc, pivots, n as int);
        let x = answer(rhs@, used@, pc, 64);
        assert(sat(coef@, rhs@, x) == sat(coef0, rhs0, x));
        lemma_link(coef0, rhs0, target, masks@, x);
        assert(reaches_exactly(target, masks@, pressing_of(x, masks@.len())));
    }
    None
}

/// Decides by elimination whether the target can be left at all, and hands
/// back a refutation where it cannot.
fn refutation(target: u64, masks: &Vec<u64>) -> (w: Option<u64>)
    requires
        masks.len() <= 64,
    ensures
        match w {
            Some(w) => refutes(w, target, masks@),
            None => exists|p: Seq<bool>| reaches_exactly(target, masks@, p),
        },
{
    eliminate(target, masks)
}

/// `s` is a cheapest way to leave exactly `target`.
pub open spec fn is_cheapest_exact(s: LightSolution, target: u64, masks: Seq<u64>) -> bool {
    &&& reaches_exactly(target, masks, s.pressed@)
    &&& s.presses == press_count(s.pressed@)
    &&& forall|p: Seq<bool>| #[trigger]
        reaches_exactly(target, masks, p) ==> s.presses <= press_count(p)
}

/// What the two halves say of a pressing among all the buttons.
proof fn lemma_split(
    masks: Seq<u64>,
    half: int,
    left: Seq<Combo>,
    right: Seq<Combo>,
    p: Seq<bool>,
) -> (ab: (int, int))
    requires
        0 <= half <= masks.len(),
        p.len() == masks.len(),
        left.len() == two_pow(half as nat),
        right.len() == two_pow((masks.len() - half) as nat),
        forall|s: int| 0 <= s < left.len() ==> is_combo(#[trigger] left[s], masks.subrange(0, half), s),
        forall|s: int|
            0 <= s < right.len() ==> is_combo(
                #[trigger] right[s],
                masks.subrange(half, masks.len() as int),
                s,
            ),
    ensures
        0 <= ab.0 < left.len(),
        0 <= ab.1 < right.len(),
        left[ab.0].lights ^ right[ab.1].lights == toggled(masks, p),
        left[ab.0].presses + right[ab.1].presses == press_count(p),
{
    let n = masks.len() as int;
    let pa = p.subrange(0, half);
    let pb = p.subrange(half, n);
    let ma = masks.subrange(0, half);
    let mb = masks.subrange(half, n);
    lemma_index_of(pa);
    lemma_index_of(pb);
    lemma_toggled_concat(ma, mb, pa, pb);
    assert(ma + mb =~= masks);
    assert(pa + pb =~= p);
    let a = index_of(pa) as int;
    let b = index_of(pb) as int;
    assert(is_combo(left[a], ma, a));
    assert(is_combo(right[b], mb, b));
    (a, b)
}

/// The cheapest way to leave exactly the lights of `target` on, all 64
/// bits compared, or `None` where there is no way.
fn solve_exact(target: u64, masks: &Vec<u64>) -> (r: Option<LightSolution>)
    requires
        masks.len() <= MAX_BUTTONS,
    ensures
        match r {
            Some(s) => is_cheapest_exact(s, target, masks@),
            None => forall|p: Seq<bool>| !reaches_exactly(target, masks@, p),
        },
{
    match refutation(target, masks) {
        Some(w) => {
            proof {
                assert forall|p: Seq<bool>| !reaches_exactly(target, masks@, p) by {
                    lemma_refuted(w, target, masks@, p);
                }
            }
            return None;
        },
        None => {},
    }
    let n = masks.len();
    let half = n / 2;
    let left = enumerate(masks, 0, half);
    let right = enumerate(masks, half, n);
    proof {
        assert forall|a: int| 0 <= a < left.len() implies (#[trigger] left[a]).presses <= 20 by {
            lemma_subset_at_len(a as nat, half as nat);
        }
        assert forall|b: int| 0 <= b < right.len() implies (#[trigger] right[b]).presses <= 20 by {
            lemma_subset_at_len(b as nat, (n - half) as nat);
        }
    }
    match cheapest_pairing(target, &left, &right) {
        None => {
            proof {
                assert forall|p: Seq<bool>| !reaches_exactly(target, masks@, p) by {
                    if reaches_exactly(target, masks@, p) {
                        let ab = lemma_split(masks@, half as int, left@, right@, p);
                        assert(left[ab.0].lights ^ right[ab.1].lights == target);
                    }
                }
            }
            None
        },
        Some(pairing) => {
            let mut pressed = subset_bits(pairing.left, half);
            let rest = subset_bits(pairing.right, n - half);
            let ghost pa = pressed@;
            let mut k: usize = 0;
            while k < rest.len()
                invariant
                    k <= rest.len(),
                    pressed@ == pa + rest@.subrange(0, k as int),
                decreases rest.len() - k,
            {
                pressed.push(rest[k]);
                k += 1;
            }
            let s = LightSolution { pressed, presses: pairing.presses as u64 };
            proof {
                let ma = masks@.subrange(0, half as int);
                let mb = masks@.subrange(half as int, n as int);
                assert(rest@.subrange(0, rest.len() as int) =~= rest@);
                lemma_subset_at_len(pairing.left as nat, half as nat);
                lemma_subset_at_len(pairing.right as nat, (n - half) as nat);
                lemma_toggled_concat(ma, mb, pa, rest@);
                assert(ma + mb =~= masks@);
                assert(is_combo(left[pairing.left as int], ma, pairing.left as int));
                assert(is_combo(right[pairing.right as int], mb, pairing.right as int));
                assert forall|p: Seq<bool>| #[trigger]
                    reaches_exactly(target, masks@, p) implies s.presses <= press_count(p) by {
                    let ab = lemma_split(masks@, half as int, left@, right@, p);
                    assert(left[ab.0].lights ^ right[ab.1].lights == target);
                }
            }
            Some(s)
        },
    }
}

/// `s` is a cheapest way to leave the `light_count` lowest lights as
/// `target` has them.
pub open spec fn is_cheapest_lighting(
    s: LightSolution,
    light_count: nat,
    target: u64,
    masks: Seq<u64>,
) -> bool {
    &&& lights_match(light_count, target, masks, s.pressed@)
    &&& s.presses == press_count(s.pressed@)
    &&& forall|p: Seq<bool>| #[trigger]
        lights_match(light_count, target, masks, p) ==> s.presses <= press_count(p)
}

/// Restricting every button to some lights restricts what any pressing
/// leaves on to those lights.
pub proof fn lemma_toggled_restricted(masks: Seq<u64>, cut: Seq<u64>, keep: u64, p: Seq<bool>)
    requires
        cut.len() == masks.len(),
        forall|j: int| 0 <= j < masks.len() ==> #[trigger] cut[j] == masks[j] & keep,
    ensures
        toggled(cut, p) == toggled(masks, p) & keep,
    decreases masks.len(),
{
    if masks.len() == 0 {
        lemma_plain_bits(keep, 0);
    } else {
        lemma_toggled_restricted(masks.drop_last(), cut.drop_last(), keep, p.drop_last());
        let r = toggled(masks.drop_last(), p.drop_last());
        let m = masks.last();
        assert((r ^ m) & keep == (r & keep) ^ (m & keep)) by (bit_vector);
    }
}

/// The fewest button presses that leave the `light_count` lowest lights of
/// a machine as `target` has them, each press toggling the lights of the
/// button's mask, with one way to do it.
///
/// Fails with `TooManyButtons` exactly when there are more than
/// `MAX_BUTTONS` buttons, and otherwise with `Infeasible` exactly when no
/// pressing leaves the target.
pub fn solve_lights(light_count: usize, target: u64, masks: &Vec<u64>) -> (r: Result<
    LightSolution,
    SolveError,
>)
    ensures
        match r {
            Ok(s) => masks.len() <= MAX_BUTTONS && is_cheapest_lighting(
                s,
                light_count as nat,
                target,
                masks@,
            ),
            Err(SolveError::TooManyButtons) => masks.len() > MAX_BUTTONS,
            Err(SolveError::Infeasible) => masks.len() <= MAX_BUTTONS && forall|p: Seq<bool>|
                !lights_match(light_count as nat, target, masks@, p),
        },
{
    if masks.len() > MAX_BUTTONS {
        return Err(SolveError::TooManyButtons);
    }
    let keep = all_mask(light_count);
    let mut cut: Vec<u64> = Vec::new();
    let mut j: usize = 0;
    while j < masks.len()
        invariant
            j <= masks.len(),
            cut.len() == j,
            forall|k: int| 0 <= k < j ==> #[trigger] cut[k] == masks[k] & keep,
        decreases masks.len() - j,
    {
        cut.push(masks[j] & keep);
        j += 1;
    }
    proof {
        assert forall|p: Seq<bool>|
            lights_match(light_count as nat, target, masks@, p) == reaches_exactly(
                target & keep,
                cut@,
                p,
            ) by {
            lemma_toggled_restricted(masks@, cut@, keep, p);
        }
    }
    match solve_exact(target & keep, &cut) {
        Some(s) => {
            proof {
                assert forall|p: Seq<bool>| #[trigger]
                    lights_match(light_count as nat, target, masks@, p) implies s.presses
                    <= press_count(p) by {
                    assert(reaches_exactly(target & keep, cut@, p));
                }
            }
            Ok(s)
        },
        None => {
            proof {
                assert forall|p: Seq<bool>| !lights_match(light_count as nat, target, masks@, p) by {
                    assert(!reaches_exactly(target & keep, cut@, p));
                }
            }
            Err(SolveError::Infeasible)
        },
    }
}

} // verus!
