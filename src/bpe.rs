//! Symbols, pairs, the pair counter, the pair rewriter, the symbol table and the
//! trainer that merges pairs over one byte buffer.
use crate::config::DictionaryConfig;
use crate::dictionary::{entries_of_units, weight, Dictionary};
use crate::small::{small_as_slice, small_bytes, small_from_vec, SmallBytes};
use std::collections::HashMap;
use vstd::prelude::*;

verus! {

broadcast use vstd::std_specs::hash::group_hash_axioms;

/// Training stops once the symbol sequence is this short.
pub const MINIMUN_STRING_LENGTH: usize = 16;

/// A symbol id: `0..=255` stand for single bytes, larger ids for learned compounds.
pub type Unit = u32;

/// Two units packed into one integer: the left one in the high half.
pub type Pair = u64;

/// The table from each unit to the bytes it expands to.
pub type UnitMapInternal = HashMap<Unit, SmallBytes>;

/// What each unit of a table expands to.
pub open spec fn table(m: UnitMapInternal) -> Map<Unit, Seq<u8>> {
    table_of_map(m@)
}

/// What each unit of a map of small byte strings expands to.
pub open spec fn table_of_map(m: Map<Unit, SmallBytes>) -> Map<Unit, Seq<u8>> {
    Map::new(|k: Unit| m.contains_key(k), |k: Unit| small_bytes(m[k]))
}

/// The bytes that the units of `s` expand to through `t`, concatenated.
pub open spec fn expand(s: Seq<Unit>, t: Map<Unit, Seq<u8>>) -> Seq<u8>
    decreases s.len(),
{
    if s.len() == 0 {
        seq![]
    } else {
        t[s[0]] + expand(s.subrange(1, s.len() as int), t)
    }
}

/// Every unit of `s` has an entry in `t`.
pub open spec fn covers(t: Map<Unit, Seq<u8>>, s: Seq<Unit>) -> bool {
    forall|i: int| 0 <= i < s.len() ==> t.contains_key(#[trigger] s[i])
}

/// Each single-byte unit is in `t` and expands to its own byte.
pub open spec fn is_byte_table(t: Map<Unit, Seq<u8>>) -> bool {
    forall|k: Unit| k < 256 ==> #[trigger] t.contains_key(k) && t[k] == seq![k as u8]
}

/// The table with the single-byte units alone.
pub open spec fn byte_table() -> Map<Unit, Seq<u8>> {
    Map::new(|k: Unit| k < 256, |k: Unit| seq![k as u8])
}

/// Expansion distributes over concatenation.
pub proof fn lemma_expand_append(a: Seq<Unit>, b: Seq<Unit>, t: Map<Unit, Seq<u8>>)
    ensures
        expand(a + b, t) == expand(a, t) + expand(b, t),
    decreases a.len(),
{
    if a.len() == 0 {
        assert(a + b =~= b);
    } else {
        assert((a + b).subrange(1, (a + b).len() as int) =~= a.subrange(1, a.len() as int) + b);
        lemma_expand_append(a.subrange(1, a.len() as int), b, t);
    }
}

/// Expanding one more unit appends that unit's bytes.
pub proof fn lemma_expand_take(s: Seq<Unit>, i: int, t: Map<Unit, Seq<u8>>)
    requires
        0 <= i < s.len(),
    ensures
        expand(s.take(i + 1), t) == expand(s.take(i), t) + t[s[i]],
{
    assert(s.take(i + 1) =~= s.take(i) + seq![s[i]]);
    lemma_expand_append(s.take(i), seq![s[i]], t);
    assert(seq![s[i]].subrange(1, 1) =~= Seq::<Unit>::empty());
    assert(expand(Seq::<Unit>::empty(), t) == Seq::<u8>::empty());
    assert(t[s[i]] + Seq::<u8>::empty() =~= t[s[i]]);
}

/// Expanding the units of a byte string through a table that maps each byte
/// to itself gives the byte string back.
pub proof fn lemma_bytes_round_trip(b: Seq<u8>, t: Map<Unit, Seq<u8>>)
    requires
        is_byte_table(t),
    ensures
        expand(units_of_bytes(b), t) == b,
    decreases b.len(),
{
    if b.len() > 0 {
        let rest = b.subrange(1, b.len() as int);
        lemma_bytes_round_trip(rest, t);
        assert(units_of_bytes(b).subrange(1, b.len() as int) =~= units_of_bytes(rest));
        let k = b[0] as Unit;
        assert(t.contains_key(k));
        assert(seq![k as u8] + rest =~= b);
    }
}

/// Expanding the units of a byte string through the table that
/// `default_unit_map` builds gives the byte string back.
pub proof fn lemma_default_round_trip(b: Seq<u8>)
    ensures
        expand(units_of_bytes(b), byte_table()) == b,
{
    lemma_bytes_round_trip(b, byte_table());
}

/// The table of the 256 single-byte units.
pub fn default_unit_map() -> (r: UnitMapInternal)
    ensures
        table(r) == byte_table(),
{
    let mut result: UnitMapInternal = HashMap::with_capacity(256);
    let mut c: u32 = 0;
    while c < 256
        invariant
            c <= 256,
            forall|k: Unit| #[trigger] result@.contains_key(k) <==> k < c,
            forall|k: Unit| k < c ==> small_bytes(#[trigger] result@[k]) == seq![k as u8],
        decreases 256 - c,
    {
        let b: u8 = c as u8;
        let v = vec![b];
        assert(v@ =~= seq![b]);
        let sb = small_from_vec(v);
        let ghost old_map = result@;
        result.insert(c, sb);
        assert(result@ == old_map.insert(c, sb));
        c += 1;
    }
    assert(table(result) =~= byte_table());
    result
}

/// The bytes that `units` expand to through `unit_map`.
pub fn units_to_bytes(units: &[Unit], unit_map: &UnitMapInternal) -> (r: Vec<u8>)
    requires
        covers(table(*unit_map), units@),
    ensures
        r@ == expand(units@, table(*unit_map)),
{
    let ghost t = table(*unit_map);
    let mut result: Vec<u8> = Vec::new();
    let mut i: usize = 0;
    while i < units.len()
        invariant
            i <= units@.len(),
            t == table(*unit_map),
            covers(t, units@),
            result@ == expand(units@.take(i as int), t),
        decreases units@.len() - i,
    {
        let c = units[i];
        assert(t.contains_key(units@[i as int]));
        let bytes = small_as_slice(unit_map.get(&c).unwrap());
        let ghost before = result@;
        let mut j: usize = 0;
        while j < bytes.len()
            invariant
                j <= bytes@.len(),
                result@ == before + bytes@.take(j as int),
            decreases bytes@.len() - j,
        {
            result.push(bytes[j]);
            j += 1;
            assert(result@ =~= before + bytes@.take(j as int));
        }
        assert(bytes@.take(j as int) =~= bytes@);
        proof {
            lemma_expand_take(units@, i as int, t);
        }
        i += 1;
    }
    assert(units@.take(i as int) =~= units@);
    result
}

/// The packed form of the pair `(l, r)`.
pub open spec fn pair_of(l: Unit, r: Unit) -> Pair {
    (l as int * 0x1_0000_0000 + r as int) as Pair
}

/// The two units packed in `p`.
pub open spec fn unpair(p: Pair) -> (Unit, Unit) {
    ((p as int / 0x1_0000_0000) as Unit, (p as int % 0x1_0000_0000) as Unit)
}

pub fn into_pair(c1: Unit, c2: Unit) -> (r: Pair)
    ensures
        r == pair_of(c1, c2),
{
    let r = ((c1 as Pair) << 32u64) | c2 as Pair;
    assert(((c1 as u64) << 32u64) | (c2 as u64) == (c1 as u64) * 0x1_0000_0000u64 + (c2 as u64))
        by (bit_vector)
        requires c1 <= 0xffff_ffffu32;
    r
}

pub fn from_pair(p: Pair) -> (r: (Unit, Unit))
    ensures
        r == unpair(p),
{
    assert((p >> 32u64) == p / 0x1_0000_0000u64) by (bit_vector);
    assert((p & 0xffff_ffffu64) == p % 0x1_0000_0000u64) by (bit_vector);
    ((p >> 32u64) as Unit, (p & 0xffff_ffffu64) as Unit)
}

/// Unpacking a packed pair gives back both units, in order.
pub proof fn lemma_pair_round_trip(l: Unit, r: Unit)
    ensures
        unpair(pair_of(l, r)) == (l, r),
{
    let p = l as int * 0x1_0000_0000 + r as int;
    assert(0 <= p < 0x1_0000_0000_0000_0000) by (nonlinear_arith)
        requires p == l as int * 0x1_0000_0000 + r as int, 0 <= l < 0x1_0000_0000, 0 <= r < 0x1_0000_0000;
    assert(p / 0x1_0000_0000 == l as int && p % 0x1_0000_0000 == r as int) by (nonlinear_arith)
        requires p == l as int * 0x1_0000_0000 + r as int, 0 <= r < 0x1_0000_0000;
}

/// The units that stand for the bytes of `b`, one for one.
pub open spec fn units_of_bytes(b: Seq<u8>) -> Seq<Unit> {
    b.map(|_i: int, x: u8| x as Unit)
}

pub fn bytes_to_units(bytes: &[u8]) -> (r: Vec<Unit>)
    ensures
        r@ == units_of_bytes(bytes@),
{
    let mut r: Vec<Unit> = Vec::with_capacity(bytes.len());
    let mut i: usize = 0;
    while i < bytes.len()
        invariant
            i <= bytes@.len(),
            r@ == units_of_bytes(bytes@.take(i as int)),
        decreases bytes@.len() - i,
    {
        r.push(bytes[i] as Unit);
        i += 1;
        assert(units_of_bytes(bytes@.take(i as int)) =~= units_of_bytes(bytes@.take(i - 1)).push(
            bytes@[i - 1] as Unit,
        ));
    }
    assert(bytes@.take(i as int) =~= bytes@);
    r
}

/// What the left-to-right rewrite of `s` emits, replacing each non-overlapping
/// occurrence of `(l, r)` by `n`; `pending` says that an `l` was read and not yet emitted.
pub open spec fn rewrite(s: Seq<Unit>, l: Unit, r: Unit, n: Unit, pending: bool) -> Seq<Unit>
    decreases s.len(),
{
    if s.len() == 0 {
        if pending { seq![l] } else { seq![] }
    } else {
        let x = s[0];
        let rest = s.subrange(1, s.len() as int);
        if pending {
            if x == r {
                seq![n] + rewrite(rest, l, r, n, false)
            } else if x == l {
                seq![l] + rewrite(rest, l, r, n, true)
            } else {
                seq![l, x] + rewrite(rest, l, r, n, false)
            }
        } else if x == l {
            rewrite(rest, l, r, n, true)
        } else {
            seq![x] + rewrite(rest, l, r, n, false)
        }
    }
}

/// `(l, r)` stands at positions `i`, `i + 1` of `s`.
pub open spec fn pair_at(s: Seq<Unit>, l: Unit, r: Unit, i: int) -> bool {
    0 <= i && i + 1 < s.len() && s[i] == l && s[i + 1] == r
}

/// `(l, r)` stands somewhere in `s`.
pub open spec fn has_pair(s: Seq<Unit>, l: Unit, r: Unit) -> bool {
    exists|i: int| pair_at(s, l, r, i)
}

/// The rewrite never grows the sequence, and shrinks it where the pair occurs.
pub proof fn lemma_rewrite_len(s: Seq<Unit>, l: Unit, r: Unit, n: Unit, pending: bool)
    ensures
        rewrite(s, l, r, n, pending).len() <= s.len() + if pending { 1int } else { 0int },
        has_pair(s, l, r) || (pending && s.len() > 0 && s[0] == r) ==> rewrite(
            s,
            l,
            r,
            n,
            pending,
        ).len() < s.len() + if pending { 1int } else { 0int },
    decreases s.len(),
{
    if s.len() > 0 {
        let rest = s.subrange(1, s.len() as int);
        lemma_rewrite_len(rest, l, r, n, false);
        lemma_rewrite_len(rest, l, r, n, true);
        if has_pair(s, l, r) {
            let i = choose|i: int| pair_at(s, l, r, i);
            if i > 0 {
                assert(pair_at(rest, l, r, i - 1));
            }
        }
    }
}

pub fn assign_pair_to_new_unit(s: &[Unit], pair: Pair, new_unit: Unit) -> (res: Vec<Unit>)
    ensures
        res@ == rewrite(s@, unpair(pair).0, unpair(pair).1, new_unit, false),
{
    let mut result: Vec<Unit> = Vec::with_capacity(s.len());
    let (c1, c2) = from_pair(pair);
    let mut expecting_c2 = false;
    let ghost target = rewrite(s@, c1, c2, new_unit, false);
    let mut i: usize = 0;
    assert(s@.subrange(0, s@.len() as int) =~= s@);
    while i < s.len()
        invariant
            i <= s@.len(),
            target == rewrite(s@, c1, c2, new_unit, false),
            result@ + rewrite(s@.subrange(i as int, s@.len() as int), c1, c2, new_unit, expecting_c2)
                == target,
        decreases s@.len() - i,
    {
        let c = s[i];
        let ghost rest = s@.subrange(i + 1, s@.len() as int);
        assert(s@.subrange(i as int, s@.len() as int).subrange(1, s@.len() - i) =~= rest);
        let ghost before = result@;
        if expecting_c2 {
            if c == c2 {
                result.push(new_unit);
                expecting_c2 = false;
            } else if c == c1 {
                result.push(c1);
            } else {
                result.push(c1);
                result.push(c);
                expecting_c2 = false;
                assert(result@ =~= before + seq![c1, c]);
            }
        } else if c == c1 {
            expecting_c2 = true;
        } else {
            result.push(c);
        }
        i += 1;
        assert(result@ + rewrite(rest, c1, c2, new_unit, expecting_c2) =~= target);
    }
    if expecting_c2 {
        result.push(c1);
    }
    assert(result@ =~= target);
    result
}

/// How many of the first `n` windows of `s` hold the packed pair `p`.
pub open spec fn window_count(s: Seq<Unit>, p: Pair, n: int) -> nat
    decreases n,
{
    if n <= 0 || n >= s.len() {
        0
    } else {
        window_count(s, p, n - 1) + if pair_of(s[n - 1], s[n]) == p {
            1nat
        } else {
            0nat
        }
    }
}

/// How often the packed pair `p` stands in `s`, overlapping windows included.
pub open spec fn pair_count(s: Seq<Unit>, p: Pair) -> nat {
    window_count(s, p, s.len() - 1)
}

/// Window `j` of `s` holds the packed pair `p`.
pub open spec fn window_at(s: Seq<Unit>, p: Pair, j: int) -> bool {
    0 <= j && j + 1 < s.len() && pair_of(s[j], s[j + 1]) == p
}

proof fn lemma_window_count_bound(s: Seq<Unit>, p: Pair, n: int)
    ensures
        window_count(s, p, n) <= if n < 0 { 0 } else { n },
        window_count(s, p, n) > 0 ==> exists|j: int| j < n && #[trigger] window_at(s, p, j),
    decreases n,
{
    if n > 0 && n < s.len() {
        lemma_window_count_bound(s, p, n - 1);
        if window_count(s, p, n - 1) > 0 {
            let j = choose|j: int| j < n - 1 && #[trigger] window_at(s, p, j);
            assert(j < n && window_at(s, p, j));
        } else if window_count(s, p, n) > 0 {
            assert(window_at(s, p, n - 1));
        }
    }
}

/// A pair that occurs is found at some window.
pub proof fn lemma_counted_pair_occurs(s: Seq<Unit>, p: Pair)
    requires
        pair_count(s, p) > 0,
    ensures
        has_pair(s, unpair(p).0, unpair(p).1),
{
    lemma_window_count_bound(s, p, s.len() - 1);
    let j = choose|j: int| j < s.len() - 1 && #[trigger] window_at(s, p, j);
    lemma_pair_round_trip(s[j], s[j + 1]);
    assert(pair_at(s, unpair(p).0, unpair(p).1, j));
}

pub fn count_pairs(s: &[Unit]) -> (result: HashMap<Pair, usize>)
    ensures
        forall|p: Pair| #[trigger] result@.contains_key(p) <==> pair_count(s@, p) > 0,
        forall|p: Pair| #[trigger] result@.contains_key(p) ==> result@[p] == pair_count(s@, p),
{
    let mut result: HashMap<Pair, usize> = HashMap::with_capacity(1024);
    if s.len() < 2 {
        return result;
    }
    let mut i: usize = 0;
    while i < s.len() - 1
        invariant
            s@.len() >= 2,
            i + 1 <= s@.len(),
            forall|p: Pair| #[trigger] result@.contains_key(p) <==> window_count(s@, p, i as int) > 0,
            forall|p: Pair| #[trigger] result@.contains_key(p) ==> result@[p] == window_count(
                s@,
                p,
                i as int,
            ),
        decreases s@.len() - i,
    {
        let curr_pair = into_pair(s[i], s[i + 1]);
        proof {
            lemma_window_count_bound(s@, curr_pair, i as int);
        }
        match result.get(&curr_pair) {
            Some(n) => {
                let m: usize = *n + 1;
                result.insert(curr_pair, m);
            },
            None => {
                result.insert(curr_pair, 1);
            },
        }
        i += 1;
        assert forall|p: Pair| #[trigger] result@.contains_key(p) <==> window_count(s@, p, i as int) > 0
            by {
            assert(window_count(s@, p, i as int) == window_count(s@, p, i - 1) + if pair_of(
                s@[i - 1],
                s@[i as int],
            ) == p {
                1nat
            } else {
                0nat
            });
        }
        assert forall|p: Pair| #[trigger] result@.contains_key(p) implies result@[p] == window_count(
            s@,
            p,
            i as int,
        ) by {
            assert(window_count(s@, p, i as int) == window_count(s@, p, i - 1) + if pair_of(
                s@[i - 1],
                s@[i as int],
            ) == p {
                1nat
            } else {
                0nat
            });
        }
    }
    result
}

/// Below this many entries a table always has a free compound id.
pub const UNIT_LIMIT: usize = 0xffff_fe00;

/// `n` is the smallest compound id that `t` does not use.
pub open spec fn is_first_free(t: Map<Unit, Seq<u8>>, n: Unit) -> bool {
    &&& 256 <= n < Unit::MAX
    &&& !t.contains_key(n)
    &&& forall|j: Unit| 256 <= j < n ==> #[trigger] t.contains_key(j)
}

/// The smallest compound id that `t` does not use.
pub open spec fn first_free(t: Map<Unit, Seq<u8>>) -> Unit {
    choose|n: Unit| is_first_free(t, n)
}

/// The ids from `lo` up to, not including, `hi`.
pub open spec fn id_range(lo: Unit, hi: Unit) -> Set<Unit> {
    Set::new(|i: Unit| lo <= i < hi)
}

proof fn lemma_id_range_len(lo: Unit, hi: Unit)
    requires
        lo <= hi,
    ensures
        id_range(lo, hi).finite(),
        id_range(lo, hi).len() == hi - lo,
    decreases hi - lo,
{
    if lo == hi {
        assert(id_range(lo, hi) =~= Set::empty());
    } else {
        lemma_id_range_len(lo, (hi - 1) as Unit);
        assert(id_range(lo, hi) =~= id_range(lo, (hi - 1) as Unit).insert((hi - 1) as Unit));
    }
}

/// A table with fewer than `UNIT_LIMIT` entries has a first free compound id,
/// and only one.
pub proof fn lemma_first_free(t: Map<Unit, Seq<u8>>)
    requires
        t.dom().finite(),
        t.dom().len() < UNIT_LIMIT,
    ensures
        is_first_free(t, first_free(t)),
        forall|n: Unit| is_first_free(t, n) ==> n == first_free(t),
{
    if forall|i: Unit| 256 <= i < Unit::MAX ==> #[trigger] t.contains_key(i) {
        lemma_id_range_len(256, Unit::MAX);
        assert(id_range(256, Unit::MAX).subset_of(t.dom()));
        vstd::set_lib::lemma_len_subset(id_range(256, Unit::MAX), t.dom());
        assert(false);
    }
    let free = choose|i: Unit| 256 <= i < Unit::MAX && !#[trigger] t.contains_key(i);
    lemma_least_free(t, free);
    assert forall|n: Unit| is_first_free(t, n) implies n == first_free(t) by {
        let m = first_free(t);
        if n < m {
            assert(t.contains_key(n));
        } else if m < n {
            assert(t.contains_key(m));
        }
    }
}

proof fn lemma_least_free(t: Map<Unit, Seq<u8>>, free: Unit)
    requires
        256 <= free < Unit::MAX,
        !t.contains_key(free),
    ensures
        exists|n: Unit| is_first_free(t, n),
    decreases free,
{
    if forall|j: Unit| 256 <= j < free ==> #[trigger] t.contains_key(j) {
        assert(is_first_free(t, free));
    } else {
        let j = choose|j: Unit| 256 <= j < free && !#[trigger] t.contains_key(j);
        lemma_least_free(t, j);
    }
}

/// Gives `pair` a compound id: `new_unit` where it is given and unused, else the
/// smallest unused id from 256 on. The id expands to the pair's two expansions.
pub fn assign_new_unit(pair: Pair, unit_map: &mut UnitMapInternal, new_unit: Option<Unit>) -> (r: Unit)
    requires
        table(*old(unit_map)).contains_key(unpair(pair).0),
        table(*old(unit_map)).contains_key(unpair(pair).1),
        old(unit_map)@.len() < UNIT_LIMIT,
    ensures
        !table(*old(unit_map)).contains_key(r),
        r == match new_unit {
            Some(u) if !table(*old(unit_map)).contains_key(u) => u,
            _ => first_free(table(*old(unit_map))),
        },
        table(*final(unit_map)) == table(*old(unit_map)).insert(
            r,
            table(*old(unit_map))[unpair(pair).0] + table(*old(unit_map))[unpair(pair).1],
        ),
{
    let ghost t = table(*unit_map);
    proof {
        assert(t.dom() =~= unit_map@.dom());
        lemma_first_free(t);
    }
    let chosen = match new_unit {
        Some(u) if !unit_map.contains_key(&u) => u,
        _ => {
            let ghost free = first_free(t);
            let mut i: Unit = 256;
            while unit_map.contains_key(&i)
                invariant
                    256 <= i <= free,
                    t == table(*unit_map),
                    is_first_free(t, free),
                    forall|j: Unit| 256 <= j < i ==> #[trigger] t.contains_key(j),
                decreases free - i,
            {
                i += 1;
            }
            assert(is_first_free(t, i));
            i
        },
    };
    let (c1, c2) = from_pair(pair);
    let mut new_bytes: Vec<u8> = Vec::new();
    let left = small_as_slice(unit_map.get(&c1).unwrap());
    new_bytes.extend_from_slice(left);
    assert(new_bytes@ =~= t[c1]);
    let right = small_as_slice(unit_map.get(&c2).unwrap());
    new_bytes.extend_from_slice(right);
    assert(new_bytes@ =~= t[c1] + t[c2]);
    let ghost before = unit_map@;
    unit_map.insert(chosen, small_from_vec(new_bytes));
    assert(unit_map@ == before.insert(chosen, unit_map@[chosen]));
    assert(table(*unit_map) =~= t.insert(chosen, t[c1] + t[c2]));
    chosen
}

/// Neither unit of `p` is the separator byte, where one is set.
pub open spec fn admissible(p: Pair, separator: Option<u8>) -> bool {
    match separator {
        Some(u) => unpair(p).0 != u as Unit && unpair(p).1 != u as Unit,
        None => true,
    }
}

/// `p` is at least as frequent in `s` as `q`, and packs no larger where as frequent.
pub open spec fn beats(s: Seq<Unit>, p: Pair, q: Pair) -> bool {
    pair_count(s, q) < pair_count(s, p) || (pair_count(s, q) == pair_count(s, p) && p <= q)
}

/// `p` is the most frequent admissible pair of `s`, the smallest one on ties.
pub open spec fn is_best_pair(s: Seq<Unit>, separator: Option<u8>, p: Pair) -> bool {
    &&& admissible(p, separator)
    &&& pair_count(s, p) > 0
    &&& forall|q: Pair| admissible(q, separator) && #[trigger] pair_count(s, q) > 0 ==> beats(s, p, q)
}

/// Some admissible pair occurs in `s`.
pub open spec fn has_candidate(s: Seq<Unit>, separator: Option<u8>) -> bool {
    exists|p: Pair| admissible(p, separator) && #[trigger] pair_count(s, p) > 0
}

/// The pair that a training step merges.
pub open spec fn best_pair(s: Seq<Unit>, separator: Option<u8>) -> Pair {
    choose|p: Pair| is_best_pair(s, separator, p)
}

/// A training step merges a pair: one is admissible, frequent enough, and an id is free.
pub open spec fn step_merges(
    s: Seq<Unit>,
    t: Map<Unit, Seq<u8>>,
    minimum_appearance: usize,
    separator: Option<u8>,
) -> bool {
    &&& has_candidate(s, separator)
    &&& pair_count(s, best_pair(s, separator)) >= minimum_appearance
    &&& t.dom().len() < UNIT_LIMIT
}

/// The best pair is unique.
pub proof fn lemma_best_pair_unique(s: Seq<Unit>, separator: Option<u8>, p: Pair)
    requires
        is_best_pair(s, separator, p),
    ensures
        best_pair(s, separator) == p,
{
    let b = best_pair(s, separator);
    assert(is_best_pair(s, separator, b));
    assert(beats(s, p, b) && beats(s, b, p));
}

/// Picks the best pair of `s`, if any admissible pair occurs.
fn select_best_pair(s: &[Unit], pairs: &HashMap<Pair, usize>, separator: Option<u8>) -> (r: Option<
    (Pair, usize),
>)
    requires
        forall|p: Pair| #[trigger] pairs@.contains_key(p) <==> pair_count(s@, p) > 0,
        forall|p: Pair| #[trigger] pairs@.contains_key(p) ==> pairs@[p] == pair_count(s@, p),
    ensures
        match r {
            Some((p, c)) => is_best_pair(s@, separator, p) && c == pair_count(s@, p),
            None => !has_candidate(s@, separator),
        },
{
    if s.len() < 2 {
        assert forall|q: Pair| admissible(q, separator) implies #[trigger] pair_count(s@, q) == 0 by {}
        return None;
    }
    let mut found = false;
    let mut best: Pair = 0;
    let mut best_count: usize = 0;
    let mut i: usize = 0;
    while i < s.len() - 1
        invariant
            s@.len() >= 2,
            i + 1 <= s@.len(),
            forall|p: Pair| #[trigger] pairs@.contains_key(p) <==> pair_count(s@, p) > 0,
            forall|p: Pair| #[trigger] pairs@.contains_key(p) ==> pairs@[p] == pair_count(s@, p),
            found ==> admissible(best, separator) && pair_count(s@, best) > 0 && best_count
                == pair_count(s@, best),
            forall|j: int|
                0 <= j < i && admissible(pair_of(s@[j], s@[j + 1]), separator) ==> found && beats(
                    s@,
                    best,
                    #[trigger] pair_of(s@[j], s@[j + 1]),
                ),
        decreases s@.len() - i,
    {
        let a = s[i];
        let b = s[i + 1];
        let p = into_pair(a, b);
        proof {
            lemma_pair_round_trip(a, b);
            lemma_window_count_bound(s@, p, s@.len() - 1);
            assert(window_at(s@, p, i as int));
            lemma_window_in_count(s@, p, i as int);
        }
        let ok = match separator {
            Some(u) => a != u as Unit && b != u as Unit,
            None => true,
        };
        if ok {
            let c = *pairs.get(&p).unwrap();
            if !found || c > best_count || (c == best_count && p < best) {
                found = true;
                best = p;
                best_count = c;
            }
        }
        i += 1;
    }
    if !found {
        assert forall|q: Pair| admissible(q, separator) implies #[trigger] pair_count(s@, q) == 0 by {
            if pair_count(s@, q) > 0 {
                lemma_window_count_bound(s@, q, s@.len() - 1);
                let j = choose|j: int| j < s@.len() - 1 && #[trigger] window_at(s@, q, j);
                assert(pair_of(s@[j], s@[j + 1]) == q);
            }
        }
        return None;
    }
    assert forall|q: Pair| admissible(q, separator) && #[trigger] pair_count(s@, q) > 0 implies beats(
        s@,
        best,
        q,
    ) by {
        lemma_window_count_bound(s@, q, s@.len() - 1);
        let j = choose|j: int| j < s@.len() - 1 && #[trigger] window_at(s@, q, j);
        assert(pair_of(s@[j], s@[j + 1]) == q);
    }
    Some((best, best_count))
}

proof fn lemma_window_in_count(s: Seq<Unit>, p: Pair, j: int)
    requires
        window_at(s, p, j),
    ensures
        pair_count(s, p) > 0,
{
    lemma_window_count_grows(s, p, j + 1, s.len() - 1);
}

proof fn lemma_window_count_grows(s: Seq<Unit>, p: Pair, m: int, n: int)
    requires
        1 <= m <= n < s.len(),
        window_at(s, p, m - 1),
    ensures
        window_count(s, p, n) > 0,
    decreases n - m,
{
    if m < n {
        lemma_window_count_grows(s, p, m, n - 1);
    }
}

fn copy_units(s: &[Unit]) -> (r: Vec<Unit>)
    ensures
        r@ == s@,
{
    let mut r: Vec<Unit> = Vec::new();
    r.extend_from_slice(s);
    r
}

/// One training step: merges the best admissible pair into a fresh id where it
/// occurs at least `minimum_appearance` times and the table has an id left.
/// The flag tells that nothing was merged.
pub fn step(
    s: &[Unit],
    unit_map: &mut UnitMapInternal,
    minimum_appearance: usize,
    ultimate_separator: Option<u8>,
) -> (r: (Vec<Unit>, bool))
    requires
        covers(table(*old(unit_map)), s@),
    ensures
        r.1 == !step_merges(s@, table(*old(unit_map)), minimum_appearance, ultimate_separator),
        r.1 ==> r.0@ == s@ && *final(unit_map) == *old(unit_map),
        !r.1 ==> ({
            let t = table(*old(unit_map));
            let (l, rt) = unpair(best_pair(s@, ultimate_separator));
            let n = first_free(t);
            &&& r.0@ == rewrite(s@, l, rt, n, false)
            &&& table(*final(unit_map)) == t.insert(n, t[l] + t[rt])
        }),
{
    let ghost t = table(*unit_map);
    assert(t.dom() =~= unit_map@.dom());
    let pairs = count_pairs(s);
    let best = select_best_pair(s, &pairs, ultimate_separator);
    match best {
        None => (copy_units(s), true),
        Some((pair, count)) => {
            proof {
                lemma_best_pair_unique(s@, ultimate_separator, pair);
            }
            if count < minimum_appearance || unit_map.len() >= UNIT_LIMIT {
                return (copy_units(s), true);
            }
            proof {
                lemma_counted_pair_occurs(s@, pair);
                let j = choose|j: int| pair_at(s@, unpair(pair).0, unpair(pair).1, j);
                assert(t.contains_key(s@[j]) && t.contains_key(s@[j + 1]));
                lemma_first_free(t);
            }
            let new_unit = assign_new_unit(pair, unit_map, None);
            (assign_pair_to_new_unit(s, pair, new_unit), false)
        },
    }
}

/// The entries of `t` that pruning keeps: the units of `s`, and the single-byte
/// units too when `keep_single_byte_tokens` holds.
pub open spec fn pruned(t: Map<Unit, Seq<u8>>, s: Seq<Unit>, keep_single_byte_tokens: bool) -> Map<
    Unit,
    Seq<u8>,
> {
    Map::new(
        |k: Unit| t.contains_key(k) && (s.contains(k) || (keep_single_byte_tokens && k < 256)),
        |k: Unit| t[k],
    )
}

/// Removes from `unit_map` every unit that `units` does not use, keeping the
/// single-byte units when asked; returns how many were removed.
pub fn remove_unnecessary_units_in_map(
    units: &[Unit],
    unit_map: &mut UnitMapInternal,
    keep_single_byte_tokens: bool,
) -> (r: usize)
    ensures
        table(*final(unit_map)) == pruned(table(*old(unit_map)), units@, keep_single_byte_tokens),
        r == old(unit_map)@.len() - final(unit_map)@.len(),
{
    let ghost orig = unit_map@;
    let orig_len = unit_map.len();
    let mut kept: UnitMapInternal = HashMap::new();
    let mut i: usize = 0;
    while i < units.len()
        invariant
            i <= units@.len(),
            forall|k: Unit| #[trigger] orig.contains_key(k) <==> (kept@.contains_key(k) || unit_map@.contains_key(k)),
            forall|k: Unit| #[trigger] kept@.contains_key(k) ==> !unit_map@.contains_key(k) && kept@[k] == orig[k] && units@.contains(k),
            forall|k: Unit| #[trigger] unit_map@.contains_key(k) ==> unit_map@[k] == orig[k],
            forall|j: int| 0 <= j < i && orig.contains_key(units@[j]) ==> kept@.contains_key(#[trigger] units@[j]),
        decreases units@.len() - i,
    {
        let u = units[i];
        if let Some(v) = unit_map.remove(&u) {
            kept.insert(u, v);
        }
        i += 1;
    }
    if keep_single_byte_tokens {
        let mut b: Unit = 0;
        while b < 256
            invariant
                b <= 256,
                keep_single_byte_tokens,
                forall|k: Unit| #[trigger] orig.contains_key(k) <==> (kept@.contains_key(k) || unit_map@.contains_key(k)),
                forall|k: Unit| #[trigger] kept@.contains_key(k) ==> !unit_map@.contains_key(k) && kept@[k] == orig[k] && (units@.contains(k) || k < 256),
                forall|k: Unit| #[trigger] unit_map@.contains_key(k) ==> unit_map@[k] == orig[k],
                forall|j: int| 0 <= j < units@.len() && orig.contains_key(units@[j]) ==> kept@.contains_key(#[trigger] units@[j]),
                forall|k: Unit| k < b && orig.contains_key(k) ==> #[trigger] kept@.contains_key(k),
            decreases 256 - b,
        {
            if let Some(v) = unit_map.remove(&b) {
                kept.insert(b, v);
            }
            b += 1;
        }
    }
    proof {
        assert(kept@.dom().subset_of(orig.dom()));
        vstd::set_lib::lemma_len_subset(kept@.dom(), orig.dom());
        assert forall|k: Unit| #[trigger] pruned(table_of_map(orig), units@, keep_single_byte_tokens).contains_key(k)
            implies kept@.contains_key(k) by {
            if units@.contains(k) {
                let j = choose|j: int| 0 <= j < units@.len() && units@[j] == k;
                assert(kept@.contains_key(units@[j]));
            }
        }
    }
    *unit_map = kept;
    assert(table(*unit_map) =~= pruned(table_of_map(orig), units@, keep_single_byte_tokens));
    orig_len - unit_map.len()
}

proof fn lemma_expand_cons(x: Unit, rest: Seq<Unit>, t: Map<Unit, Seq<u8>>)
    ensures
        expand(seq![x] + rest, t) == t[x] + expand(rest, t),
{
    assert((seq![x] + rest).subrange(1, rest.len() as int + 1) =~= rest);
}

proof fn lemma_covers_append(t: Map<Unit, Seq<u8>>, a: Seq<Unit>, b: Seq<Unit>)
    requires
        covers(t, a),
        covers(t, b),
    ensures
        covers(t, a + b),
{
    assert forall|i: int| 0 <= i < (a + b).len() implies t.contains_key(#[trigger] (a + b)[i]) by {
        if i >= a.len() {
            assert((a + b)[i] == b[i - a.len()]);
        } else {
            assert((a + b)[i] == a[i]);
        }
    }
}

/// Rewriting with a fresh id `n` that expands to the pair's two expansions keeps
/// the expansion of the whole sequence, and every unit of the result is in the table.
pub proof fn lemma_rewrite_expand(
    s: Seq<Unit>,
    l: Unit,
    r: Unit,
    n: Unit,
    pending: bool,
    t: Map<Unit, Seq<u8>>,
)
    requires
        covers(t, s),
        t.contains_key(l),
        t.contains_key(r),
        !t.contains_key(n),
    ensures
        expand(rewrite(s, l, r, n, pending), t.insert(n, t[l] + t[r])) == (if pending {
            t[l]
        } else {
            seq![]
        }) + expand(s, t),
        covers(t.insert(n, t[l] + t[r]), rewrite(s, l, r, n, pending)),
    decreases s.len(),
{
    let t2 = t.insert(n, t[l] + t[r]);
    if s.len() == 0 {
        if pending {
            lemma_expand_cons(l, seq![], t2);
            assert(seq![l] + Seq::<Unit>::empty() =~= seq![l]);
        }
        assert(Seq::<u8>::empty() + Seq::<u8>::empty() =~= Seq::<u8>::empty());
        assert(t[l] + Seq::<u8>::empty() =~= t[l]);
    } else {
        let x = s[0];
        let rest = s.subrange(1, s.len() as int);
        assert(t.contains_key(s[0]));
        assert(covers(t, rest)) by {
            assert forall|i: int| 0 <= i < rest.len() implies t.contains_key(#[trigger] rest[i]) by {
                assert(rest[i] == s[i + 1]);
            }
        }
        lemma_rewrite_expand(rest, l, r, n, false, t);
        lemma_rewrite_expand(rest, l, r, n, true, t);
        let e_rest = expand(rest, t);
        assert(expand(s, t) == t[x] + e_rest);
        if pending {
            if x == r {
                lemma_expand_cons(n, rewrite(rest, l, r, n, false), t2);
                assert(t[l] + (t[x] + e_rest) =~= (t[l] + t[r]) + (seq![] + e_rest));
                lemma_covers_append(t2, seq![n], rewrite(rest, l, r, n, false));
            } else if x == l {
                lemma_expand_cons(l, rewrite(rest, l, r, n, true), t2);
                assert(t[l] + (t[x] + e_rest) =~= t[l] + (t[l] + e_rest));
                lemma_covers_append(t2, seq![l], rewrite(rest, l, r, n, true));
            } else {
                assert(seq![l, x] + rewrite(rest, l, r, n, false) =~= seq![l] + (seq![x] + rewrite(
                    rest,
                    l,
                    r,
                    n,
                    false,
                )));
                lemma_expand_cons(x, rewrite(rest, l, r, n, false), t2);
                lemma_expand_cons(l, seq![x] + rewrite(rest, l, r, n, false), t2);
                assert(t[l] + (t[x] + e_rest) =~= t[l] + (t[x] + (seq![] + e_rest)));
                lemma_covers_append(t2, seq![x], rewrite(rest, l, r, n, false));
                lemma_covers_append(t2, seq![l], seq![x] + rewrite(rest, l, r, n, false));
            }
        } else if x == l {
            assert(seq![] + (t[x] + e_rest) =~= t[l] + e_rest);
        } else {
            lemma_expand_cons(x, rewrite(rest, l, r, n, false), t2);
            assert(seq![] + (t[x] + e_rest) =~= t[x] + (seq![] + e_rest));
            lemma_covers_append(t2, seq![x], rewrite(rest, l, r, n, false));
        }
    }
}

/// The minimum count of a pair to merge: 2 where the configuration sets none.
pub open spec fn min_appearance(config: DictionaryConfig) -> usize {
    match config.minimum_appearance {
        Some(m) => m,
        None => 2,
    }
}

/// The sequence and table after one training step.
pub open spec fn step_result(
    s: Seq<Unit>,
    t: Map<Unit, Seq<u8>>,
    minimum_appearance: usize,
    separator: Option<u8>,
) -> (Seq<Unit>, Map<Unit, Seq<u8>>) {
    if step_merges(s, t, minimum_appearance, separator) {
        let (l, r) = unpair(best_pair(s, separator));
        let n = first_free(t);
        (rewrite(s, l, r, n, false), t.insert(n, t[l] + t[r]))
    } else {
        (s, t)
    }
}

/// The sequence and table that training from `s` and `t` ends with.
pub open spec fn train_from(s: Seq<Unit>, t: Map<Unit, Seq<u8>>, config: DictionaryConfig) -> (
    Seq<Unit>,
    Map<Unit, Seq<u8>>,
)
    decreases s.len(),
{
    let merges = step_merges(s, t, min_appearance(config), config.ultimate_separator);
    let (s2, t2) = step_result(s, t, min_appearance(config), config.ultimate_separator);
    let keep = config.keep_single_byte_tokens;
    if !merges || s2.len() <= MINIMUN_STRING_LENGTH {
        (s2, pruned(t2, s2, keep))
    } else {
        let t3 = if t2.dom().len() >= config.dictionary_size {
            pruned(t2, s2, keep)
        } else {
            t2
        };
        if t3.dom().len() >= config.dictionary_size || s2.len() >= s.len() {
            (s2, t3)
        } else {
            train_from(s2, t3, config)
        }
    }
}

/// The sequence and table that training on `bytes` ends with.
pub open spec fn trained(bytes: Seq<u8>, config: DictionaryConfig) -> (
    Seq<Unit>,
    Map<Unit, Seq<u8>>,
) {
    train_from(units_of_bytes(bytes), byte_table(), config)
}

/// No compound id of `t` expands to bytes that hold the separator.
pub open spec fn separator_free(t: Map<Unit, Seq<u8>>, separator: Option<u8>) -> bool {
    forall|k: Unit|
        #[trigger] t.contains_key(k) && k >= 256 ==> match separator {
            Some(u) => !t[k].contains(u),
            None => true,
        }
}

/// `t` is finite, its single-byte ids expand to their own byte, and no compound
/// holds the separator.
pub open spec fn table_ok(t: Map<Unit, Seq<u8>>, separator: Option<u8>) -> bool {
    &&& t.dom().finite()
    &&& forall|k: Unit| #[trigger] t.contains_key(k) && k < 256 ==> t[k] == seq![k as u8]
    &&& separator_free(t, separator)
}

proof fn lemma_pruned(t: Map<Unit, Seq<u8>>, s: Seq<Unit>, keep: bool, separator: Option<u8>)
    requires
        table_ok(t, separator),
    ensures
        table_ok(pruned(t, s, keep), separator),
        pruned(t, s, keep).dom().len() <= t.dom().len(),
        covers(t, s) ==> covers(pruned(t, s, keep), s),
        covers(t, s) ==> expand(s, pruned(t, s, keep)) == expand(s, t),
{
    let p = pruned(t, s, keep);
    assert(p.dom().subset_of(t.dom()));
    vstd::set_lib::lemma_len_subset(p.dom(), t.dom());
    vstd::set_lib::lemma_set_subset_finite(t.dom(), p.dom());
    if covers(t, s) {
        assert forall|i: int| 0 <= i < s.len() implies p.contains_key(#[trigger] s[i]) by {
            assert(t.contains_key(s[i]));
            assert(s.contains(s[i]));
        }
        lemma_expand_same(s, p, t);
    }
}

/// Two tables that agree on the units of `s` expand it alike.
proof fn lemma_expand_same(s: Seq<Unit>, a: Map<Unit, Seq<u8>>, b: Map<Unit, Seq<u8>>)
    requires
        forall|i: int| 0 <= i < s.len() ==> a[#[trigger] s[i]] == b[s[i]],
    ensures
        expand(s, a) == expand(s, b),
    decreases s.len(),
{
    if s.len() > 0 {
        let rest = s.subrange(1, s.len() as int);
        assert forall|i: int| 0 <= i < rest.len() implies a[#[trigger] rest[i]] == b[rest[i]] by {
            assert(rest[i] == s[i + 1]);
        }
        lemma_expand_same(rest, a, b);
        assert(a[s[0]] == b[s[0]]);
    }
}

proof fn lemma_step_result(
    s: Seq<Unit>,
    t: Map<Unit, Seq<u8>>,
    minimum_appearance: usize,
    separator: Option<u8>,
)
    requires
        covers(t, s),
        table_ok(t, separator),
    ensures
        ({
            let (s2, t2) = step_result(s, t, minimum_appearance, separator);
            &&& covers(t2, s2)
            &&& table_ok(t2, separator)
            &&& expand(s2, t2) == expand(s, t)
            &&& t2.dom().len() <= t.dom().len() + 1
            &&& step_merges(s, t, minimum_appearance, separator) ==> s2.len() < s.len()
        }),
{
    if step_merges(s, t, minimum_appearance, separator) {
        let p = best_pair(s, separator);
        let (l, r) = unpair(p);
        let n = first_free(t);
        let t2 = t.insert(n, t[l] + t[r]);
        let start_pair = choose|p: Pair| admissible(p, separator) && #[trigger] pair_count(s, p) > 0;
        assert(admissible(start_pair, separator) && pair_count(s, start_pair) > 0);
        assert(is_best_pair(s, separator, p)) by {
            assert(exists|q: Pair| is_best_pair(s, separator, q)) by {
                lemma_best_exists(s, separator, start_pair);
            }
        }
        lemma_counted_pair_occurs(s, p);
        let j = choose|j: int| pair_at(s, l, r, j);
        assert(t.contains_key(s[j]) && t.contains_key(s[j + 1]));
        lemma_first_free(t);
        lemma_rewrite_expand(s, l, r, n, false, t);
        assert(Seq::<u8>::empty() + expand(s, t) =~= expand(s, t));
        lemma_rewrite_len(s, l, r, n, false);
        assert forall|k: Unit| #[trigger] t2.contains_key(k) && k >= 256 implies match separator {
            Some(u) => !t2[k].contains(u),
            None => true,
        } by {
            if k == n {
                if let Some(u) = separator {
                    if t2[k].contains(u) {
                        let i = choose|i: int| 0 <= i < t2[k].len() && t2[k][i] == u;
                        if i < t[l].len() {
                            assert(t[l][i] == u);
                            if l < 256 {
                                assert(t[l] == seq![l as u8]);
                            } else {
                                assert(t[l].contains(u));
                            }
                        } else {
                            assert(t[r][i - t[l].len()] == u);
                            if r < 256 {
                                assert(t[r] == seq![r as u8]);
                            } else {
                                assert(t[r].contains(u));
                            }
                        }
                    }
                }
            }
        }
    }
}

/// Where an admissible pair occurs, a best one exists.
proof fn lemma_best_exists(s: Seq<Unit>, separator: Option<u8>, start_pair: Pair)
    requires
        admissible(start_pair, separator),
        pair_count(s, start_pair) > 0,
    ensures
        exists|q: Pair| is_best_pair(s, separator, q),
{
    let cands = Set::new(|q: Pair| admissible(q, separator) && pair_count(s, q) > 0);
    // every candidate occurs at a window, so there are finitely many
    let windows = Set::new(|j: int| 0 <= j < s.len() - 1).map(|j: int| pair_of(s[j], s[j + 1]));
    assert(cands.subset_of(windows)) by {
        assert forall|q: Pair| cands.contains(q) implies windows.contains(q) by {
            lemma_window_count_bound(s, q, s.len() - 1);
            let j = choose|j: int| j < s.len() - 1 && #[trigger] window_at(s, q, j);
            assert(Set::new(|j: int| 0 <= j < s.len() - 1).contains(j));
        }
    }
    let ints = Set::new(|j: int| 0 <= j < s.len() - 1);
    assert(ints =~= vstd::set_lib::set_int_range(0, s.len() - 1));
    vstd::set_lib::lemma_int_range(0, s.len() - 1);
    ints.lemma_map_finite(|j: int| pair_of(s[j], s[j + 1]));
    vstd::set_lib::lemma_set_subset_finite(windows, cands);
    lemma_best_in(s, separator, cands, start_pair);
}

proof fn lemma_best_in(s: Seq<Unit>, separator: Option<u8>, cands: Set<Pair>, start_pair: Pair)
    requires
        cands.finite(),
        cands == Set::new(|q: Pair| admissible(q, separator) && pair_count(s, q) > 0),
        cands.contains(start_pair),
    ensures
        exists|q: Pair| is_best_pair(s, separator, q),
    decreases cands.len(),
{
    // walk to a candidate that no candidate beats strictly
    if forall|q: Pair| #[trigger] cands.contains(q) ==> beats(s, start_pair, q) {
        assert forall|q: Pair| admissible(q, separator) && #[trigger] pair_count(s, q) > 0 implies beats(s, start_pair, q) by {
            assert(cands.contains(q));
        }
        assert(is_best_pair(s, separator, start_pair));
    } else {
        let q = choose|q: Pair| #[trigger] cands.contains(q) && !beats(s, start_pair, q);
        lemma_better_set(s, separator, cands, start_pair, q);
    }
}

proof fn lemma_better_set(s: Seq<Unit>, separator: Option<u8>, cands: Set<Pair>, start_pair: Pair, q: Pair)
    requires
        cands.finite(),
        cands == Set::new(|x: Pair| admissible(x, separator) && pair_count(s, x) > 0),
        cands.contains(start_pair),
        cands.contains(q),
        !beats(s, start_pair, q),
    ensures
        exists|x: Pair| is_best_pair(s, separator, x),
    decreases cands.filter(|x: Pair| !beats(s, start_pair, x)).len(),
{
    let above_p0 = cands.filter(|x: Pair| !beats(s, start_pair, x));
    let above_q = cands.filter(|x: Pair| !beats(s, q, x));
    assert(above_q.subset_of(above_p0)) by {
        assert forall|x: Pair| above_q.contains(x) implies above_p0.contains(x) by {}
    }
    assert(above_p0.contains(q) && !above_q.contains(q));
    vstd::set_lib::lemma_set_subset_finite(cands, above_p0);
    vstd::set_lib::lemma_len_subset(above_q, above_p0.remove(q));
    if forall|x: Pair| #[trigger] cands.contains(x) ==> beats(s, q, x) {
        assert forall|x: Pair| admissible(x, separator) && #[trigger] pair_count(s, x) > 0 implies beats(s, q, x) by {
            assert(cands.contains(x));
        }
        assert(is_best_pair(s, separator, q));
    } else {
        let x = choose|x: Pair| #[trigger] cands.contains(x) && !beats(s, q, x);
        lemma_better_set(s, separator, cands, q, x);
    }
}

proof fn lemma_byte_table()
    ensures
        table_ok(byte_table(), None),
        forall|sep: Option<u8>| separator_free(byte_table(), sep),
        byte_table().dom().len() == 256,
{
    assert(byte_table().dom() =~= id_range(0, 256));
    lemma_id_range_len(0, 256);
}

/// Trains on `bytes`: merges pairs until nothing is worth merging, the sequence
/// is short, or the table cannot be pruned below `dictionary_size`. Returns the
/// final sequence and table.
pub fn train(bytes: &[u8], config: &DictionaryConfig) -> (r: (Vec<Unit>, UnitMapInternal))
    ensures
        (r.0@, table(r.1)) == trained(bytes@, *config),
        covers(table(r.1), r.0@),
        expand(r.0@, table(r.1)) == bytes@,
        table_ok(table(r.1), config.ultimate_separator),
        config.dictionary_size > 256 ==> r.1@.len() <= config.dictionary_size,
{
    let mut unit_map = default_unit_map();
    let mut units = bytes_to_units(bytes);
    let minimum_appearance = match config.minimum_appearance {
        Some(m) => m,
        None => 2,
    };
    let sep = config.ultimate_separator;
    proof {
        lemma_byte_table();
        lemma_default_round_trip(bytes@);
        assert(covers(byte_table(), units@));
        assert(table(unit_map).dom() =~= unit_map@.dom());
    }
    loop
        invariant_except_break
            train_from(units@, table(unit_map), *config) == trained(bytes@, *config),
            config.dictionary_size > 256 ==> unit_map@.len() < config.dictionary_size,
        invariant
            minimum_appearance == min_appearance(*config),
            sep == config.ultimate_separator,
            covers(table(unit_map), units@),
            expand(units@, table(unit_map)) == bytes@,
            table_ok(table(unit_map), sep),
            table(unit_map).dom() == unit_map@.dom(),
        ensures
            (units@, table(unit_map)) == trained(bytes@, *config),
            config.dictionary_size > 256 ==> unit_map@.len() <= config.dictionary_size,
        decreases units@.len(),
    {
        let ghost s0 = units@;
        let ghost t0 = table(unit_map);
        proof {
            lemma_step_result(s0, t0, minimum_appearance, sep);
        }
        let (next, nothing_to_compress) = step(&units, &mut unit_map, minimum_appearance, sep);
        units = next;
        let ghost t2 = table(unit_map);
        assert(t2.dom() =~= unit_map@.dom());
        assert((units@, t2) == step_result(s0, t0, minimum_appearance, sep));
        if nothing_to_compress || units.len() <= MINIMUN_STRING_LENGTH {
            remove_unnecessary_units_in_map(&units, &mut unit_map, config.keep_single_byte_tokens);
            proof {
                lemma_pruned(t2, units@, config.keep_single_byte_tokens, sep);
                assert(table(unit_map).dom() =~= unit_map@.dom());
            }
            break;
        }
        if unit_map.len() >= config.dictionary_size {
            remove_unnecessary_units_in_map(&units, &mut unit_map, config.keep_single_byte_tokens);
            proof {
                lemma_pruned(t2, units@, config.keep_single_byte_tokens, sep);
                assert(table(unit_map).dom() =~= unit_map@.dom());
            }
            if unit_map.len() >= config.dictionary_size {
                break;
            }
        }
    }
    (units, unit_map)
}

/// Trains on `bytes` and counts the words that the final sequence expands to.
pub fn construct_dictionary(bytes: &[u8], config: DictionaryConfig) -> (r: Dictionary)
    ensures
        r.wf(),
        r.entries() == entries_of_units(trained(bytes@, config).0, trained(bytes@, config).1),
        weight(r.entries()) == bytes@.len(),
{
    let (units, unit_map) = train(bytes, &config);
    Dictionary::from_units(&units, &unit_map)
}

} // verus!
