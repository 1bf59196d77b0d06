//! The transitions that leave one state: a compact map from tokens to states.
//!
//! The entries stand in a vector in the order in which they were added, each packed into one
//! word. Beside it stands an open-addressing table (linear probing, Fibonacci hashing, at most
//! 90% full) from hash slots to positions in that vector.
use vstd::arithmetic::power2::{lemma2_to64, lemma_pow2_unfold, pow2};
use vstd::prelude::*;

use crate::primitives::{StateId, TokenId};

verus! {

/// Marks a slot of the hash table that refers to no entry.
pub const EMPTY: u32 = 0xFFFF_FFFF;

/// The entries of a transition table, in the order in which they were added.
pub type Row = Seq<(TokenId, StateId)>;

/// `row` holds an entry for `token`.
pub open spec fn row_contains(row: Row, token: TokenId) -> bool {
    exists|i: int| 0 <= i < row.len() && (#[trigger] row[i]).0 == token
}

/// The position of the entry for `token` in `row`.
pub open spec fn row_position(row: Row, token: TokenId) -> int
    recommends
        row_contains(row, token),
{
    choose|i: int| 0 <= i < row.len() && (#[trigger] row[i]).0 == token
}

/// The state that `row` assigns to `token`, if any.
pub open spec fn row_lookup(row: Row, token: TokenId) -> Option<StateId> {
    if row_contains(row, token) {
        Some(row[row_position(row, token)].1)
    } else {
        None
    }
}

/// No token occurs twice in `row`.
pub open spec fn row_distinct(row: Row) -> bool {
    forall|i: int, j: int| 0 <= i < j < row.len() ==> (#[trigger] row[i]).0 != (#[trigger] row[j]).0
}

/// `row` with `token` leading to `state`: its entry is replaced in place, or a new one is
/// appended.
pub open spec fn row_upsert(row: Row, token: TokenId, state: StateId) -> Row {
    if row_contains(row, token) {
        row.update(row_position(row, token), (token, state))
    } else {
        row.push((token, state))
    }
}

/// The least power of two times `p` that is not below `n`.
pub open spec fn doubled_until(p: nat, n: nat) -> nat
    decreases (if p < n { n - p } else { 0 }),
{
    if p == 0 || p >= n {
        p
    } else {
        doubled_until(2 * p, n)
    }
}

/// The number of slots that `entries` entries and one more need at a load of at most 90%:
/// the least power of two not below `(entries + 1) / 0.9`, and at least 2.
pub open spec fn table_size(entries: nat) -> nat {
    let need = ((entries + 1) * 10 + 8) / 9;
    doubled_until(1, if need < 2 { 2 } else { need })
}

/// The number of slots after `slots` slots were found too few.
pub open spec fn grown_size(slots: nat) -> nat {
    if slots == 0 {
        2
    } else {
        2 * slots
    }
}

/// One more entry beside `entries` others would fill more than 90% of `slots` slots.
pub open spec fn over_loaded(slots: nat, entries: nat) -> bool {
    slots == 0 || (entries + 1) * 10 > slots * 9
}

/// `slots` slots are no more than what `entries` entries may come to need.
pub open spec fn snug(slots: nat, entries: nat) -> bool {
    slots > 0 ==> slots * 9 <= 20 * (entries + 1) + 7
}

/// The machine can count `entries` entries and the slots that they need.
pub open spec fn countable(entries: nat) -> bool {
    &&& entries <= u32::MAX
    &&& 20 * (entries + 2) <= usize::MAX
}

/// `n` is a power of two, in the form that masks by `n - 1` rest on.
spec fn maskable(n: usize) -> bool {
    n > 0 && n & ((n - 1) as usize) == 0
}

/// The least power of two that is not below `n`.
fn power_of_two_from(n: usize) -> (r: usize)
    requires
        2 <= n,
        2 * n <= usize::MAX,
    ensures
        r == doubled_until(1, n as nat),
        maskable(r),
        n <= r < 2 * n,
{
    let mut p: usize = 1;
    assert(1usize & 0usize == 0) by (bit_vector);
    while p < n
        invariant
            2 <= n,
            2 * n <= usize::MAX,
            maskable(p),
            p < 2 * n,
            doubled_until(p as nat, n as nat) == doubled_until(1, n as nat),
        decreases 2 * n - p,
    {
        proof {
            lemma_doubled_power(p, (2 * p) as usize);
        }
        p = 2 * p;
    }
    p
}

/// An inserted entry is found again, the entries of other tokens stay as they were, and no token
/// comes to occur twice.
pub proof fn law_insert_then_get(row: Row, token: TokenId, state: StateId, other: TokenId)
    requires
        row_distinct(row),
    ensures
        row_distinct(row_upsert(row, token, state)),
        row_lookup(row_upsert(row, token, state), token) == Some(state),
        other != token ==> row_lookup(row_upsert(row, token, state), other) == row_lookup(row, other),
{
    let new_row = row_upsert(row, token, state);
    if row_contains(row, token) {
        assert(new_row[row_position(row, token)].0 == token);
    } else {
        assert(new_row[row.len() as int].0 == token);
    }
    assert(row_contains(new_row, token));
    if other != token {
        if row_contains(row, other) {
            assert(new_row[row_position(row, other)] == row[row_position(row, other)]);
            assert(row_contains(new_row, other));
        }
        if row_contains(new_row, other) {
            assert(row[row_position(new_row, other)] == new_row[row_position(new_row, other)]);
            assert(row_contains(row, other));
        }
    }
}

/// What a row gives for a token is the state of an entry with that token, and nothing exactly where
/// no entry has it. Where no token occurs twice, every entry is what the row gives for its token.
pub proof fn law_lookup_reads_entries(row: Row, token: TokenId)
    ensures
        match row_lookup(row, token) {
            Some(state) => exists|i: int| 0 <= i < row.len() && #[trigger] row[i] == (token, state),
            None => forall|i: int| 0 <= i < row.len() ==> (#[trigger] row[i]).0 != token,
        },
        row_contains(row, token) <==> exists|i: int| 0 <= i < row.len() && (#[trigger] row[i]).0 == token,
        (forall|i: int, j: int|
            0 <= i < row.len() && 0 <= j < row.len() && (#[trigger] row[i]).0 == (#[trigger] row[j]).0 ==> i == j)
            <==> row_distinct(row),
        row_distinct(row) ==> forall|i: int|
            0 <= i < row.len() && (#[trigger] row[i]).0 == token ==> row_lookup(row, token) == Some(row[i].1),
{
    if row_contains(row, token) {
        let i = row_position(row, token);
        assert(row[i] == (token, row[i].1));
    }
    if row_distinct(row) {
        assert forall|i: int, j: int|
            0 <= i < row.len() && 0 <= j < row.len() && (#[trigger] row[i]).0 == (#[trigger] row[j]).0 implies i
            == j by {
            if i < j {
                assert(row[i].0 != row[j].0);
            } else if j < i {
                assert(row[j].0 != row[i].0);
            }
        }
    }
}

/// An insertion changes nothing but the entry of its token: the entry stays where it is, a new one
/// goes to the end.
pub proof fn law_insert_changes_one_entry(row: Row, token: TokenId, state: StateId)
    requires
        row_distinct(row),
    ensures
        ({
            let after = row_upsert(row, token, state);
            let known = exists|i: int| 0 <= i < row.len() && (#[trigger] row[i]).0 == token;
            &&& after.len() == row.len() + if known {
                0int
            } else {
                1int
            }
            &&& forall|i: int|
                0 <= i < row.len() ==> #[trigger] after[i] == if row[i].0 == token {
                    (token, state)
                } else {
                    row[i]
                }
            &&& !known ==> after.last() == (token, state)
        }),
{
    if row_contains(row, token) {
        let p = row_position(row, token);
        assert forall|i: int| 0 <= i < row.len() implies #[trigger] row_upsert(row, token, state)[i] == if row[i].0
            == token {
            (token, state)
        } else {
            row[i]
        } by {
            if i < p {
                assert(row[i].0 != row[p].0);
            } else if p < i {
                assert(row[p].0 != row[i].0);
            }
        }
    }
}

/// The number of slots for `entries` entries is the least power of two, from 2 on, of which one
/// entry more fills at most 90%.
pub proof fn law_table_size_is_least(entries: nat)
    ensures
        table_size(entries) >= 2,
        exists|k: nat| table_size(entries) == #[trigger] pow2(k),
        10 * (entries + 1) <= 9 * table_size(entries),
        table_size(entries) > 2 ==> 10 * (entries + 1) > 9 * (table_size(entries) / 2),
{
    let need = ((entries + 1) * 10 + 8) / 9;
    let n: nat = if need < 2 {
        2
    } else {
        need
    };
    lemma2_to64();
    lemma_doubled_least(1, n, 0);
}

/// Doubling ends at the first power of two that is large enough.
proof fn lemma_doubled_least(p: nat, n: nat, k: nat)
    requires
        p == pow2(k),
        p >= 1,
    ensures
        doubled_until(p, n) >= n,
        doubled_until(p, n) == p || doubled_until(p, n) < 2 * n,
        exists|m: nat| doubled_until(p, n) == #[trigger] pow2(m),
    decreases (if p < n { n - p } else { 0 }),
{
    if p < n {
        lemma_pow2_unfold(k + 1);
        lemma_doubled_least(2 * p, n, k + 1);
    }
}

/// Entries can be counted up to the greatest 32-bit number, where the machine can count twenty times
/// as many slots.
pub proof fn law_countable(entries: nat)
    ensures
        countable(entries) <==> entries <= 0xFFFF_FFFF && 20 * (entries + 2) <= usize::MAX,
{
}

/// A table is too full for one entry more exactly if that would fill more than 90% of it; then its
/// slots are doubled, and the first ones are two.
pub proof fn law_growth(slots: nat, entries: nat)
    ensures
        over_loaded(slots, entries) <==> 10 * (entries + 1) > 9 * slots,
        grown_size(slots) == if slots == 0 {
            2
        } else {
            2 * slots
        },
{
}

/// The token of a packed entry: its low 32 bits.
pub open spec fn pair_token(pair: u64) -> TokenId {
    pair as u32
}

/// The state of a packed entry: its high 32 bits.
pub open spec fn pair_state(pair: u64) -> StateId {
    (pair >> 32) as u32
}

/// One word that holds `state` in its high and `token` in its low 32 bits.
pub open spec fn packed(token: TokenId, state: StateId) -> u64 {
    ((state as u64) << 32) | (token as u64)
}

/// Packing loses nothing: both halves come out as they went in, and every word is what its halves
/// pack to.
pub proof fn law_packing(token: TokenId, state: StateId, pair: u64)
    ensures
        pair_token(packed(token, state)) == token,
        pair_state(packed(token, state)) == state,
        packed(pair_token(pair), pair_state(pair)) == pair,
        packed(token, state) == state * 0x1_0000_0000 + token,
{
    assert((((state as u64) << 32) | (token as u64)) == state * 0x1_0000_0000 + token) by (bit_vector);
    assert((((state as u64) << 32) | (token as u64)) as u32 == token) by (bit_vector);
    assert(((((state as u64) << 32) | (token as u64)) >> 32) as u32 == state) by (bit_vector);
    assert(((((pair >> 32) as u32) as u64) << 32) | ((pair as u32) as u64) == pair) by (bit_vector);
}

/// Fibonacci hash of a token.
spec fn hash_of(token: TokenId) -> u32 {
    ((token as nat * 0x9E37_79B1) % 0x1_0000_0000) as u32
}

/// What hashes and positions are masked by in a table of `slots` slots. Hashes have 32 bits, so
/// slots past the first `2^32` are never used.
spec fn mask_of(slots: nat) -> u32 {
    (slots - 1) as u32
}

/// The slot at which the search for `token` starts.
spec fn home(token: TokenId, mask: u32) -> int {
    (hash_of(token) & mask) as int
}

/// The slot that is `k` steps behind slot `from`, with wrap-around.
spec fn slot(from: int, k: int, mask: u32) -> int {
    if from + k <= mask {
        from + k
    } else {
        from + k - mask - 1
    }
}

/// The slots from `from` on are in use for `k` steps.
spec fn busy(index: Seq<u32>, mask: u32, from: int, k: int) -> bool {
    forall|j: int| 0 <= j < k ==> index[#[trigger] slot(from, j, mask)] != EMPTY
}

/// A search for `token` comes to slot `pos` after `k` steps.
spec fn search_comes_to(index: Seq<u32>, token: TokenId, pos: int, k: int) -> bool {
    let mask = mask_of(index.len());
    &&& 0 <= k <= mask
    &&& pos == slot(home(token, mask), k, mask)
    &&& busy(index, mask, home(token, mask), k)
}

/// A search for `token` meets a reference to entry `i` after `k` steps.
spec fn reaches(index: Seq<u32>, mask: u32, token: TokenId, i: int, k: int) -> bool {
    &&& 0 <= k <= mask
    &&& index[slot(home(token, mask), k, mask)] == i
    &&& busy(index, mask, home(token, mask), k)
}

/// A search for `token` meets a reference to entry `i`.
spec fn linked(index: Seq<u32>, mask: u32, token: TokenId, i: int) -> bool {
    exists|k: int| reaches(index, mask, token, i, k)
}

/// `index` is a hash table over the first `n` entries of `pairs`.
spec fn indexes(index: Seq<u32>, pairs: Seq<u64>, n: int) -> bool {
    let mask = mask_of(index.len());
    &&& 0 <= n <= pairs.len()
    &&& n <= mask
    &&& mask < index.len()
    &&& forall|q: int| 0 <= q < index.len() ==> (#[trigger] index[q]) == EMPTY || index[q] < n
    &&& forall|q: int, r: int|
        0 <= q < index.len() && 0 <= r < index.len() && q != r && (#[trigger] index[q]) == (
        #[trigger] index[r]) ==> index[q] == EMPTY
    &&& forall|i: int| 0 <= i < n ==> linked(index, mask, pair_token(#[trigger] pairs[i]), i)
}

/// One of the first `q` slots refers to entry `e`.
pub open spec fn refers(index: Seq<u32>, q: int, e: int) -> bool {
    exists|p: int| 0 <= p < q && #[trigger] index[p] == e
}

/// The slots in use refer to the first `n` entries, no two of them to the same one.
spec fn refers_below(index: Seq<u32>, n: int) -> bool {
    &&& forall|q: int| 0 <= q < index.len() ==> (#[trigger] index[q]) == EMPTY || index[q] < n
    &&& forall|q: int, r: int|
        0 <= q < index.len() && 0 <= r < index.len() && q != r && (#[trigger] index[q]) == (
        #[trigger] index[r]) ==> index[q] == EMPTY
}

/// The search for the token of `pair` meets entry `i` after `k` steps, and no other entry with that
/// token before.
spec fn finds_after(index: Seq<u32>, pairs: Seq<u64>, pair: u64, i: int, k: int) -> bool {
    let mask = mask_of(index.len());
    let token = pair_token(pair);
    &&& reaches(index, mask, token, i, k)
    &&& forall|j: int|
        0 <= j < k ==> pair_token(pairs[index[#[trigger] slot(home(token, mask), j, mask)] as int]) != token
}

/// The search for the token of `pair` finds entry `i` first.
spec fn found_first(index: Seq<u32>, pairs: Seq<u64>, pair: u64, i: int) -> bool {
    exists|k: int| finds_after(index, pairs, pair, i, k)
}

/// A table with more slots than entries has a free slot.
proof fn lemma_free_slot(index: Seq<u32>, pairs: Seq<u64>, n: int)
    requires
        indexes(index, pairs, n),
    ensures
        exists|q: int| 0 <= q <= mask_of(index.len()) && #[trigger] index[q] == EMPTY,
{
    let mask = mask_of(index.len());
    if forall|q: int| 0 <= q <= mask ==> #[trigger] index[q] != EMPTY {
        let used: Seq<int> = Seq::new((mask + 1) as nat, |q: int| index[q] as int);
        assert(used.no_duplicates());
        used.unique_seq_to_set();
        vstd::set_lib::lemma_int_range(0, n);
        assert(used.to_set().subset_of(vstd::set_lib::set_int_range(0, n))) by {
            assert forall|x: int| used.to_set().contains(x) implies 0 <= x < n by {
                let q = choose|q: int| 0 <= q < used.len() && used[q] == x;
                assert(index[q] != EMPTY);
            }
        }
        vstd::set_lib::lemma_len_subset(used.to_set(), vstd::set_lib::set_int_range(0, n));
        assert(false);
    }
}

/// Steps from any slot lead to every slot.
proof fn lemma_slot_covers(from: int, q: int, mask: u32)
    requires
        0 <= from <= mask,
        0 <= q <= mask,
    ensures
        exists|k: int| 0 <= k <= mask && #[trigger] slot(from, k, mask) == q,
{
    let k = if q >= from {
        q - from
    } else {
        q + mask + 1 - from
    };
    assert(slot(from, k, mask) == q);
}

/// A search that has met only used slots so far has more slots to look at.
proof fn lemma_search_goes_on(index: Seq<u32>, pairs: Seq<u64>, n: int, from: int, k: int)
    requires
        indexes(index, pairs, n),
        0 <= from <= mask_of(index.len()),
        0 <= k,
        busy(index, mask_of(index.len()), from, k),
    ensures
        k <= mask_of(index.len()),
{
    let mask = mask_of(index.len());
    lemma_free_slot(index, pairs, n);
    let q = choose|q: int| 0 <= q <= mask && #[trigger] index[q] == EMPTY;
    lemma_slot_covers(from, q, mask);
    let j = choose|j: int| 0 <= j <= mask && #[trigger] slot(from, j, mask) == q;
    assert(index[slot(from, j, mask)] == EMPTY);
}

/// Filling the free slot that a search for an entry's token ends in extends the table by that
/// entry.
proof fn lemma_place(index: Seq<u32>, pairs: Seq<u64>, n: int, k: int)
    requires
        indexes(index, pairs, n),
        n < pairs.len(),
        n < mask_of(index.len()),
        0 <= k <= mask_of(index.len()),
        forall|token: TokenId|
            0 <= #[trigger] home(token, mask_of(index.len())) <= mask_of(index.len()),
        ({
            let mask = mask_of(index.len());
            let from = home(pair_token(pairs[n]), mask);
            &&& index[slot(from, k, mask)] == EMPTY
            &&& busy(index, mask, from, k)
        }),
    ensures
        ({
            let mask = mask_of(index.len());
            let from = home(pair_token(pairs[n]), mask);
            indexes(index.update(slot(from, k, mask), n as u32), pairs, n + 1)
        }),
{
    let mask = mask_of(index.len());
    let from = home(pair_token(pairs[n]), mask);
    let q = slot(from, k, mask);
    let new_index = index.update(q, n as u32);
    assert(new_index.len() == index.len());
    assert(n < EMPTY);
    assert forall|i: int| 0 <= i < n + 1 implies linked(new_index, mask, pair_token(#[trigger] pairs[i]), i) by {
        let token = pair_token(pairs[i]);
        if i < n {
            assert(linked(index, mask, token, i));
            let m = choose|m: int| reaches(index, mask, token, i, m);
            assert(new_index[slot(home(token, mask), m, mask)] == i);
            assert(reaches(new_index, mask, token, i, m));
        } else {
            assert(reaches(new_index, mask, token, i, k));
        }
    }
}

/// A hash table stays one when entries are appended that it does not cover.
proof fn lemma_indexes_longer(index: Seq<u32>, pairs: Seq<u64>, longer: Seq<u64>, n: int)
    requires
        indexes(index, pairs, n),
        n <= longer.len(),
        forall|i: int| 0 <= i < n ==> pairs[i] == longer[i],
    ensures
        indexes(index, longer, n),
{
    assert forall|i: int| 0 <= i < n implies linked(index, mask_of(index.len()), pair_token(#[trigger] longer[i]), i) by {
        assert(pairs[i] == longer[i]);
    }
}

/// A hash table stays one when states of entries change.
proof fn lemma_indexes_same_tokens(index: Seq<u32>, pairs: Seq<u64>, changed: Seq<u64>)
    requires
        indexes(index, pairs, pairs.len() as int),
        pairs.len() == changed.len(),
        forall|i: int| 0 <= i < pairs.len() ==> pair_token(#[trigger] pairs[i]) == pair_token(changed[i]),
    ensures
        indexes(index, changed, changed.len() as int),
{
    assert forall|i: int| 0 <= i < changed.len() implies linked(index, mask_of(index.len()), pair_token(#[trigger] changed[i]), i) by {
        assert(pair_token(pairs[i]) == pair_token(changed[i]));
    }
}

/// Twice a power of two is a power of two.
proof fn lemma_doubled_power(n: usize, twice: usize)
    requires
        maskable(n),
        twice == 2 * n,
    ensures
        maskable(twice),
{
    assert(twice & ((twice - 1) as usize) == 0) by (bit_vector)
        requires
            n > 0,
            n & ((n - 1) as usize) == 0,
            twice == 2 * n,
    ;
}

/// Masking stays within the mask, and masking a successor wraps around at the mask.
proof fn lemma_mask(slots: usize, mask: u32)
    requires
        maskable(slots),
        slots >= 2,
        mask == mask_of(slots as nat),
    ensures
        mask < slots,
        mask == slots - 1 || mask == u32::MAX,
        forall|token: TokenId| 0 <= #[trigger] home(token, mask) <= mask,
        forall|pos: usize|
            pos <= mask ==> #[trigger] (((pos + 1) as usize) & (mask as usize)) == slot(pos as int, 1, mask),
{
    assert(mask < slots && (mask == slots - 1 || mask == 0xFFFF_FFFFu32)) by (bit_vector)
        requires
            slots >= 2,
            slots & ((slots - 1) as usize) == 0,
            mask == (slots - 1) as u32,
    ;
    assert forall|token: TokenId| 0 <= #[trigger] home(token, mask) <= mask by {
        let h = hash_of(token);
        assert(h & mask <= mask) by (bit_vector);
    }
    assert forall|pos: usize| pos <= mask implies #[trigger] (((pos + 1) as usize) & (mask as usize)) == slot(pos as int, 1, mask) by {
        assert((((pos + 1) as usize) & (mask as usize)) == (if pos == mask { 0 } else { pos + 1 })) by (bit_vector)
            requires
                slots >= 2,
                slots & ((slots - 1) as usize) == 0,
                mask == (slots - 1) as u32,
                pos <= mask,
        ;
    }
}

/// Transition table of one state.
#[derive(Clone, Debug, PartialEq)]
pub struct StateTransitions {
    /// Open-addressing table: slot to position in `pairs`.
    pub(crate) index: Vec<u32>,
    /// Packed entries: token in the low half, state in the high half.
    pub(crate) pairs: Vec<u64>,
}

impl View for StateTransitions {
    type V = Row;

    closed spec fn view(&self) -> Row {
        Seq::new(self.pairs@.len(), |i: int| (pair_token(self.pairs@[i]), pair_state(self.pairs@[i])))
    }
}

impl StateTransitions {
    /// The number of slots of the hash table.
    pub closed spec fn slots(&self) -> nat {
        self.index@.len()
    }

    /// The hash table finds every entry, no token has two entries, and at most 90% of the slots
    /// are in use.
    pub closed spec fn sound(&self) -> bool {
        &&& self.pairs@.len() <= u32::MAX
        &&& row_distinct(self@)
        &&& self.index@.len() == 0 ==> self.pairs@.len() == 0
        &&& self.index@.len() > 0 ==> {
            &&& self.index@.len() >= 2
            &&& maskable(self.index.len())
            &&& self.pairs@.len() * 10 <= self.index@.len() * 9
            &&& indexes(self.index@, self.pairs@, self.pairs@.len() as int)
        }
    }

    /// The table is sound, and has no more slots than its entries call for.
    pub open spec fn wf(&self) -> bool {
        &&& self.sound()
        &&& snug(self.slots(), self@.len())
    }

    /// A table without entries and without slots.
    pub fn new() -> (r: Self)
        ensures
            r.wf(),
            r@ == Row::empty(),
            r.slots() == 0,
    {
        let r = Self { index: Vec::new(), pairs: Vec::new() };
        assert(r@ =~= Row::empty());
        r
    }

    /// The table has neither entries nor slots.
    pub fn is_empty(&self) -> (r: bool)
        ensures
            r == (self.slots() == 0 && self@.len() == 0),
    {
        self.index.is_empty() && self.pairs.is_empty()
    }

    /// One word that holds both halves of an entry.
    fn pack(token: TokenId, state: StateId) -> (r: u64)
        ensures
            r == packed(token, state),
            pair_token(r) == token,
            pair_state(r) == state,
    {
        proof {
            law_packing(token, state, packed(token, state));
        }
        ((state as u64) << 32) | (token as u64)
    }

    fn hash(token: u32) -> (r: u32)
        ensures
            r == hash_of(token),
    {
        token.wrapping_mul(0x9E37_79B1)
    }

    fn unpack_state(pair: u64) -> (r: StateId)
        ensures
            r == pair_state(pair),
    {
        (pair >> 32) as u32
    }

    fn unpack_token(pair: u64) -> (r: TokenId)
        ensures
            r == pair_token(pair),
    {
        pair as u32
    }

    /// Would one more entry exceed a load of 90%?
    fn need_grow(&self) -> (r: bool)
        requires
            self.wf(),
            countable(self@.len()),
        ensures
            r == over_loaded(self.slots(), self@.len()),
    {
        if self.index.is_empty() {
            return true;
        }
        (self.pairs.len() + 1) * 10 > self.index.len() * 9
    }

    /// The free slot at which a search for `token` ends.
    fn free_slot(index: &Vec<u32>, token: TokenId, Ghost(pairs): Ghost<Seq<u64>>, Ghost(n): Ghost<int>) -> (pos:
        usize)
        requires
            index@.len() >= 2,
            maskable(index.len()),
            indexes(index@, pairs, n),
        ensures
            exists|k: int| search_comes_to(index@, token, pos as int, k),
            pos < index@.len(),
            index@[pos as int] == EMPTY,
    {
        let mask: u32 = (index.len() - 1) as u32;
        proof {
            lemma_mask(index.len(), mask);
        }
        let mut pos: usize = (Self::hash(token) & mask) as usize;
        let ghost from = home(token, mask);
        let ghost mut k: int = 0;
        while index[pos] != EMPTY
            invariant
                index@.len() >= 2,
                maskable(index.len()),
                indexes(index@, pairs, n),
                mask == mask_of(index@.len()),
                mask < index@.len(),
                from == home(token, mask),
                0 <= from <= mask,
                0 <= k <= mask,
                pos == slot(from, k, mask),
                busy(index@, mask, from, k),
            decreases mask - k,
        {
            proof {
                assert(busy(index@, mask, from, k + 1));
                lemma_search_goes_on(index@, pairs, n, from, k + 1);
                lemma_mask(index.len(), mask);
                k = k + 1;
            }
            pos = (pos + 1) & (mask as usize);
        }
        assert(search_comes_to(index@, token, pos as int, k));
        pos
    }

    /// The slot at which a search for `token` ends: one that refers to its entry, or a free one.
    fn find_slot(&self, token: TokenId) -> (pos: usize)
        requires
            self.sound(),
            self.index@.len() > 0,
        ensures
            pos < self.index@.len(),
            exists|k: int| search_comes_to(self.index@, token, pos as int, k),
            self.index@[pos as int] == EMPTY ==> !row_contains(self@, token),
            self.index@[pos as int] != EMPTY ==> {
                &&& self.index@[pos as int] < self@.len()
                &&& self@[self.index@[pos as int] as int].0 == token
            },
    {
        let mask: u32 = (self.index.len() - 1) as u32;
        proof {
            lemma_mask(self.index.len(), mask);
        }
        let mut pos: usize = (Self::hash(token) & mask) as usize;
        let ghost from = home(token, mask);
        let ghost mut k: int = 0;
        loop
            invariant
                self.sound(),
                self.index@.len() > 0,
                mask == mask_of(self.index@.len()),
                mask < self.index@.len(),
                from == home(token, mask),
                0 <= from <= mask,
                0 <= k <= mask,
                pos == slot(from, k, mask),
                busy(self.index@, mask, from, k),
                forall|j: int|
                    0 <= j < k ==> self@[self.index@[#[trigger] slot(from, j, mask)] as int].0 != token,
            decreases mask - k,
        {
            assert(search_comes_to(self.index@, token, pos as int, k));
            let entry: u32 = self.index[pos];
            if entry == EMPTY {
                proof {
                    if row_contains(self@, token) {
                        let i = row_position(self@, token);
                        assert(pair_token(self.pairs@[i]) == token);
                        assert(linked(self.index@, mask, token, i));
                        let m = choose|m: int| reaches(self.index@, mask, token, i, m);
                        assert(m >= k ==> self.index@[slot(from, k, mask)] != EMPTY || m == k);
                        assert(self.index@[slot(from, m, mask)] == i);
                        assert(false);
                    }
                }
                return pos;
            }
            let pair: u64 = self.pairs[entry as usize];
            if Self::unpack_token(pair) == token {
                return pos;
            }
            proof {
                assert(busy(self.index@, mask, from, k + 1));
                lemma_search_goes_on(self.index@, self.pairs@, self.pairs@.len() as int, from, k + 1);
                lemma_mask(self.index.len(), mask);
                k = k + 1;
            }
            pos = (pos + 1) & (mask as usize);
        }
    }

    /// A hash table of `slots` free slots.
    fn free_slots(slots: usize) -> (index: Vec<u32>)
        requires
            slots >= 2,
            maskable(slots),
        ensures
            index@.len() == slots,
            forall|q: int| 0 <= q < slots ==> #[trigger] index@[q] == EMPTY,
            forall|pairs: Seq<u64>| #[trigger] indexes(index@, pairs, 0),
    {
        let index: Vec<u32> = vec![EMPTY; slots];
        proof {
            lemma_mask(slots, mask_of(slots as nat));
        }
        index
    }

    /// Builds a table from entries without a repeated token. It has room for one entry more (the
    /// end-of-sequence token) at a load of at most 90%.
    pub fn bulk_build(pairs_in: &[(TokenId, StateId)]) -> (r: Self)
        requires
            row_distinct(pairs_in@),
            countable(pairs_in@.len()),
        ensures
            r.wf(),
            r@ == pairs_in@,
            r.slots() == table_size(pairs_in@.len()),
            !over_loaded(r.slots(), r@.len()),
    {
        let entries: usize = pairs_in.len();
        let target_entries: usize = entries + 1;
        let mut need: usize = (target_entries * 10 + 8) / 9;
        if need < 2 {
            need = 2;
        }
        let index_len: usize = power_of_two_from(need);
        let mut index: Vec<u32> = Self::free_slots(index_len);
        let mut pairs: Vec<u64> = Vec::with_capacity(target_entries);
        let ghost mask = mask_of(index_len as nat);
        proof {
            lemma_mask(index_len, mask);
        }
        let mut i: usize = 0;
        while i < entries
            invariant
                entries == pairs_in@.len(),
                countable(pairs_in@.len()),
                i <= entries,
                index_len >= 2,
                maskable(index_len),
                (entries + 1) * 10 <= index_len * 9,
                index@.len() == index_len,
                pairs@.len() == i,
                indexes(index@, pairs@, i as int),
                forall|j: int|
                    0 <= j < i ==> pairs_in@[j] == (
                        pair_token(#[trigger] pairs@[j]),
                        pair_state(pairs@[j]),
                    ),
            decreases entries - i,
        {
            let (token, state) = pairs_in[i];
            let ghost before = pairs@;
            let pos: usize = Self::free_slot(&index, token, Ghost(pairs@), Ghost(i as int));
            let ghost k = choose|k: int| search_comes_to(index@, token, pos as int, k);
            pairs.push(Self::pack(token, state));
            proof {
                lemma_mask(index_len, mask_of(index_len as nat));
                lemma_indexes_longer(index@, before, pairs@, i as int);
                lemma_place(index@, pairs@, i as int, k);
            }
            index[pos] = i as u32;
            i += 1;
        }
        let r = Self { index, pairs };
        assert(r@ =~= pairs_in@);
        r
    }

    /// Lets `token` lead to `state`. An entry that `token` has is replaced in place, otherwise a
    /// new one is appended, after the hash table was doubled if that would load more than 90% of
    /// it.
    #[verifier::rlimit(40)]
    #[verifier::spinoff_prover]
    pub fn insert(&mut self, token: TokenId, state: StateId)
        requires
            old(self).wf(),
            countable(old(self)@.len()),
            old(self)@.len() < u32::MAX || row_contains(old(self)@, token),
        ensures
            final(self).wf(),
            final(self)@ == row_upsert(old(self)@, token, state),
            final(self).slots() == if over_loaded(old(self).slots(), old(self)@.len()) {
                grown_size(old(self).slots())
            } else {
                old(self).slots()
            },
    {
        if self.index.is_empty() || self.need_grow() {
            self.resize();
        }
        let ghost before = *self;
        let mask: u32 = (self.index.len() - 1) as u32;
        proof {
            lemma_mask(self.index.len(), mask);
            law_insert_then_get(self@, token, state, token);
        }
        let pos: usize = self.find_slot(token);
        let ghost k = choose|k: int| search_comes_to(self.index@, token, pos as int, k);
        let entry: u32 = self.index[pos];
        if entry == EMPTY {
            let idx: u32 = self.pairs.len() as u32;
            self.pairs.push(Self::pack(token, state));
            proof {
                lemma_indexes_longer(self.index@, before.pairs@, self.pairs@, idx as int);
                lemma_place(self.index@, self.pairs@, idx as int, k);
            }
            self.index[pos] = idx;
            assert(self@ =~= before@.push((token, state)));
        } else {
            let i: usize = entry as usize;
            self.pairs[i] = Self::pack(token, state);
            proof {
                assert(row_contains(before@, token));
                assert(row_position(before@, token) == i);
                assert(self@ =~= before@.update(i as int, (token, state)));
                lemma_indexes_same_tokens(self.index@, before.pairs@, self.pairs@);
            }
        }
    }

    /// Doubles the hash table and enters every entry anew.
    fn resize(&mut self)
        requires
            old(self).wf(),
            countable(old(self)@.len()),
        ensures
            final(self).sound(),
            over_loaded(old(self).slots(), old(self)@.len()) ==> final(self).wf(),
            final(self)@ == old(self)@,
            final(self).parts().1 == old(self).parts().1,
            final(self).slots() == grown_size(old(self).slots()),
            !over_loaded(final(self).slots(), final(self)@.len()),
    {
        let len: usize = if self.index.len() < 1 {
            1
        } else {
            self.index.len()
        };
        let new_len: usize = len * 2;
        proof {
            assert(1usize & 0usize == 0) by (bit_vector);
            lemma_doubled_power(len, new_len);
        }
        let mut new_index: Vec<u32> = Self::free_slots(new_len);
        let mut i: usize = 0;
        while i < self.pairs.len()
            invariant
                *self == *old(self),
                new_len >= 2,
                maskable(new_len),
                self.pairs@.len() <= u32::MAX,
                self.pairs@.len() * 10 + 10 <= new_len * 9,
                i <= self.pairs@.len(),
                new_index@.len() == new_len,
                indexes(new_index@, self.pairs@, i as int),
            decreases self.pairs@.len() - i,
        {
            let token: TokenId = Self::unpack_token(self.pairs[i]);
            let pos: usize = Self::free_slot(&new_index, token, Ghost(self.pairs@), Ghost(i as int));
            proof {
                let k = choose|k: int| search_comes_to(new_index@, token, pos as int, k);
                lemma_mask(new_len, mask_of(new_len as nat));
                lemma_place(new_index@, self.pairs@, i as int, k);
            }
            new_index[pos] = i as u32;
            i += 1;
        }
        self.index = new_index;
        assert(self@ =~= old(self)@);
    }

    /// The state that `token` leads to, if any.
    pub fn get(&self, token: TokenId) -> (r: Option<StateId>)
        requires
            self.sound(),
        ensures
            r == row_lookup(self@, token),
    {
        if self.index.len() == 0 {
            return None;
        }
        let pos: usize = self.find_slot(token);
        let entry: u32 = self.index[pos];
        if entry == EMPTY {
            return None;
        }
        let pair: u64 = self.pairs[entry as usize];
        proof {
            assert(row_contains(self@, token));
            assert(row_position(self@, token) == entry);
        }
        Some(Self::unpack_state(pair))
    }

    /// The hash table and the packed entries.
    pub closed spec fn parts(&self) -> (Seq<u32>, Seq<u64>) {
        (self.index@, self.pairs@)
    }

    /// The hash table: slots that refer to entries.
    pub fn slot_entries(&self) -> (r: &[u32])
        ensures
            r@ == self.parts().0,
    {
        self.index.as_slice()
    }

    /// The packed entries: tokens in the low halves, states in the high halves.
    pub fn packed_entries(&self) -> (r: &[u64])
        ensures
            r@ == self.parts().1,
    {
        self.pairs.as_slice()
    }

    /// Puts a table together from its hash table and its packed entries, unless they do not belong
    /// together.
    pub fn from_parts(index: Vec<u32>, pairs: Vec<u64>) -> (r: Option<Self>)
        ensures
            r matches Some(table) ==> table.wf() && table.parts() == (index@, pairs@),
            r is None ==> forall|table: StateTransitions|
                #[trigger] table.parts() == (index@, pairs@) ==> !table.wf(),
    {
        let table = StateTransitions { index, pairs };
        if table.holds_together() {
            Some(table)
        } else {
            proof {
                assert forall|other: StateTransitions| #[trigger] other.parts() == (index@, pairs@) implies !other.wf() by {
                    law_parts_determine(other, table);
                }
            }
            None
        }
    }

    /// Do the hash table and the entries belong together?
    fn holds_together(&self) -> (r: bool)
        ensures
            r == self.wf(),
    {
        let n: usize = self.pairs.len();
        let slots: usize = self.index.len();
        if n > u32::MAX as usize {
            return false;
        }
        if slots == 0 {
            assert(n == 0 ==> self@ =~= Row::empty());
            return n == 0;
        }
        if slots < 2 || slots & (slots - 1) != 0 {
            return false;
        }
        if n as u128 * 10 > slots as u128 * 9 || slots as u128 * 9 > 20 * (n as u128 + 1) + 7 {
            return false;
        }
        let mask: u32 = (slots - 1) as u32;
        proof {
            lemma_mask(slots, mask);
        }
        if n > mask as usize || !self.refers_once() {
            return false;
        }
        let mut i: usize = 0;
        while i < n
            invariant
                n == self.pairs@.len(),
                n <= u32::MAX,
                slots == self.index@.len(),
                slots >= 2,
                maskable(slots),
                mask == mask_of(slots as nat),
                refers_below(self.index@, n as int),
                i <= n,
                forall|j: int| 0 <= j < i ==> found_first(self.index@, self.pairs@, #[trigger] self.pairs@[j], j),
            decreases n - i,
        {
            if !self.finds(i) {
                proof {
                    if self.wf() {
                        self.lemma_found_first(i as int);
                    }
                }
                return false;
            }
            i += 1;
        }
        proof {
            assert forall|j: int| 0 <= j < n implies linked(
                self.index@,
                mask,
                pair_token(#[trigger] self.pairs@[j]),
                j,
            ) by {
                let k = choose|k: int| finds_after(self.index@, self.pairs@, self.pairs@[j], j, k);
                assert(reaches(self.index@, mask, pair_token(self.pairs@[j]), j, k));
            }
            assert forall|a: int, b: int| 0 <= a < b < self@.len() implies (#[trigger] self@[a]).0 != (
            #[trigger] self@[b]).0 by {
                if pair_token(self.pairs@[a]) == pair_token(self.pairs@[b]) {
                    let token = pair_token(self.pairs@[a]);
                    let from = home(token, mask);
                    let k = choose|k: int| finds_after(self.index@, self.pairs@, self.pairs@[a], a, k);
                    let l = choose|l: int| finds_after(self.index@, self.pairs@, self.pairs@[b], b, l);
                    if k < l {
                        assert(pair_token(self.pairs@[self.index@[slot(from, k, mask)] as int]) != token);
                    } else if l < k {
                        assert(pair_token(self.pairs@[self.index@[slot(from, l, mask)] as int]) != token);
                    }
                }
            }
        }
        true
    }

    /// In a table in order, the search for the token of an entry finds that entry first.
    proof fn lemma_found_first(&self, i: int)
        requires
            self.wf(),
            self.index@.len() > 0,
            0 <= i < self.pairs@.len(),
        ensures
            found_first(self.index@, self.pairs@, self.pairs@[i], i),
    {
        let mask = mask_of(self.index@.len());
        let token = pair_token(self.pairs@[i]);
        let from = home(token, mask);
        lemma_mask(self.index.len(), mask);
        assert(linked(self.index@, mask, token, i));
        let k = choose|k: int| reaches(self.index@, mask, token, i, k);
        assert forall|j: int| 0 <= j < k implies pair_token(
            self.pairs@[self.index@[#[trigger] slot(from, j, mask)] as int],
        ) != token by {
            let q = slot(from, j, mask);
            let r = slot(from, k, mask);
            assert(q != r);
            let e = self.index@[q] as int;
            assert(self.index@[q] != EMPTY);
            assert(self.index@[r] == i);
            assert(e != i);
            assert(self@[e].0 != self@[i].0);
        }
        assert(finds_after(self.index@, self.pairs@, self.pairs@[i], i, k));
    }

    /// Do all slots in use refer to entries, no two of them to the same one?
    fn refers_once(&self) -> (r: bool)
        requires
            self.pairs@.len() <= u32::MAX,
        ensures
            r == refers_below(self.index@, self.pairs@.len() as int),
    {
        let n: usize = self.pairs.len();
        let mut seen: Vec<bool> = vec![false; n];
        let mut q: usize = 0;
        while q < self.index.len()
            invariant
                n == self.pairs@.len(),
                n <= u32::MAX,
                seen@.len() == n,
                q <= self.index@.len(),
                forall|p: int|
                    0 <= p < q ==> (#[trigger] self.index@[p]) == EMPTY || self.index@[p] < n,
                forall|p: int, o: int|
                    0 <= p < q && 0 <= o < q && p != o && (#[trigger] self.index@[p]) == (#[trigger] self.index@[o])
                        ==> self.index@[p] == EMPTY,
                forall|p: int|
                    0 <= p < q && (#[trigger] self.index@[p]) != EMPTY ==> seen@[self.index@[p] as int],
                forall|e: int| 0 <= e < n && #[trigger] seen@[e] ==> refers(self.index@, q as int, e),
            decreases self.index@.len() - q,
        {
            let entry: u32 = self.index[q];
            if entry != EMPTY {
                if entry as usize >= n {
                    return false;
                }
                if seen[entry as usize] {
                    proof {
                        let p = choose|p: int| 0 <= p < q && #[trigger] self.index@[p] == entry;
                        assert(self.index@[q as int] == self.index@[p]);
                    }
                    return false;
                }
                let ghost seen_before = seen@;
                seen[entry as usize] = true;
                proof {
                    assert forall|e: int| 0 <= e < n && #[trigger] seen@[e] implies refers(self.index@, q + 1, e) by {
                        if e == entry {
                            assert(self.index@[q as int] == e);
                        } else {
                            assert(seen_before[e]);
                            let p = choose|p: int| 0 <= p < q && #[trigger] self.index@[p] == e;
                            assert(0 <= p < q + 1 && self.index@[p] == e);
                        }
                    }
                }
            } else {
                proof {
                    assert forall|e: int| 0 <= e < n && #[trigger] seen@[e] implies refers(self.index@, q + 1, e) by {
                        let p = choose|p: int| 0 <= p < q && #[trigger] self.index@[p] == e;
                        assert(0 <= p < q + 1 && self.index@[p] == e);
                    }
                }
            }
            q += 1;
        }
        true
    }

    /// Does the search for the token of entry `i` find that entry first?
    fn finds(&self, i: usize) -> (r: bool)
        requires
            i < self.pairs@.len() <= u32::MAX,
            self.index@.len() >= 2,
            maskable(self.index.len()),
            refers_below(self.index@, self.pairs@.len() as int),
        ensures
            r == found_first(self.index@, self.pairs@, self.pairs@[i as int], i as int),
    {
        let mask: u32 = (self.index.len() - 1) as u32;
        proof {
            lemma_mask(self.index.len(), mask);
        }
        let pair: u64 = self.pairs[i];
        let token: TokenId = Self::unpack_token(pair);
        let mut pos: usize = (Self::hash(token) & mask) as usize;
        let ghost from = home(token, mask);
        let mut k: u32 = 0;
        loop
            invariant
                i < self.pairs@.len() <= u32::MAX,
                self.index@.len() >= 2,
                maskable(self.index.len()),
                refers_below(self.index@, self.pairs@.len() as int),
                pair == self.pairs@[i as int],
                token == pair_token(pair),
                mask == mask_of(self.index@.len()),
                mask < self.index@.len(),
                from == home(token, mask),
                0 <= from <= mask,
                k <= mask,
                pos == slot(from, k as int, mask),
                busy(self.index@, mask, from, k as int),
                forall|j: int|
                    0 <= j < k ==> pair_token(
                        self.pairs@[self.index@[#[trigger] slot(from, j, mask)] as int],
                    ) != token,
            decreases mask - k,
        {
            let entry: u32 = self.index[pos];
            if entry == EMPTY {
                proof {
                    if found_first(self.index@, self.pairs@, pair, i as int) {
                        let m = choose|m: int| finds_after(self.index@, self.pairs@, pair, i as int, m);
                        assert(m > k ==> self.index@[slot(from, k as int, mask)] != EMPTY);
                        assert(m < k ==> pair_token(self.pairs@[self.index@[slot(from, m, mask)] as int]) != token);
                    }
                }
                return false;
            }
            if Self::unpack_token(self.pairs[entry as usize]) == token {
                proof {
                    if entry == i {
                        assert(finds_after(self.index@, self.pairs@, pair, i as int, k as int));
                    } else if found_first(self.index@, self.pairs@, pair, i as int) {
                        let m = choose|m: int| finds_after(self.index@, self.pairs@, pair, i as int, m);
                        assert(m > k ==> pair_token(self.pairs@[self.index@[slot(from, k as int, mask)] as int])
                            != token);
                        assert(m < k ==> pair_token(self.pairs@[self.index@[slot(from, m, mask)] as int]) != token);
                    }
                }
                return entry as usize == i;
            }
            if k == mask {
                proof {
                    if found_first(self.index@, self.pairs@, pair, i as int) {
                        let m = choose|m: int| finds_after(self.index@, self.pairs@, pair, i as int, m);
                        assert(m < k ==> pair_token(self.pairs@[self.index@[slot(from, m, mask)] as int]) != token);
                    }
                }
                return false;
            }
            proof {
                lemma_mask(self.index.len(), mask);
            }
            k += 1;
            pos = (pos + 1) & (mask as usize);
        }
    }

    /// Iterates over the tokens of all entries.
    pub fn tokens(&self) -> (r: Tokens<'_>)
        ensures
            r.remaining() == Seq::new(self@.len(), |i: int| self@[i].0),
    {
        let r = Tokens { pairs: self.pairs.as_slice(), pos: 0 };
        assert(r.remaining() =~= Seq::new(self@.len(), |i: int| self@[i].0));
        r
    }

    /// Iterates over the states of all entries.
    pub fn states(&self) -> (r: States<'_>)
        ensures
            r.remaining() == Seq::new(self@.len(), |i: int| self@[i].1),
    {
        let r = States { pairs: self.pairs.as_slice(), pos: 0 };
        assert(r.remaining() =~= Seq::new(self@.len(), |i: int| self@[i].1));
        r
    }
}

/// A number whose bits below its highest one are all clear is a power of two.
proof fn lemma_maskable_power(n: usize) -> (k: nat)
    requires
        maskable(n),
    ensures
        n == pow2(k),
    decreases n,
{
    if n == 1 {
        lemma2_to64();
        0
    } else {
        let half = (n / 2) as usize;
        assert(half > 0 && n == 2 * half && half & ((half - 1) as usize) == 0) by (bit_vector)
            requires
                n > 1,
                n & ((n - 1) as usize) == 0,
                half == n / 2,
        ;
        let k = lemma_maskable_power(half);
        lemma_pow2_unfold(k + 1);
        k + 1
    }
}

/// In a table no token occurs twice, and at most 90% of the slots are in use, so that one is free.
/// The number of slots is a power of two, unless there are none.
pub proof fn law_table_sound(table: StateTransitions)
    requires
        table.sound(),
    ensures
        row_distinct(table@),
        table@.len() <= u32::MAX,
        table@.len() * 10 <= table.slots() * 9,
        table.slots() > 0 ==> {
            &&& table.slots() >= 2
            &&& exists|k: nat| table.slots() == #[trigger] pow2(k)
            &&& exists|q: int| 0 <= q < table.slots() && #[trigger] table.parts().0[q] == EMPTY
        },
{
    if table.slots() > 0 {
        let k = lemma_maskable_power(table.index.len());
        assert(table.slots() == pow2(k));
        lemma_free_slot(table.index@, table.pairs@, table.pairs@.len() as int);
        let q = choose|q: int| 0 <= q <= mask_of(table.index@.len()) && #[trigger] table.index@[q] == EMPTY;
        assert(0 <= q < table.slots() && table.parts().0[q] == EMPTY);
    }
}

/// In a table every position of an entry is held by exactly one slot, and all other slots are
/// free. The entries are those that the table lists.
pub proof fn law_slots_hold_entries(table: StateTransitions)
    requires
        table.sound(),
    ensures
        table.parts().0.len() == table.slots(),
        table.parts().1.len() == table@.len(),
        forall|i: int|
            0 <= i < table@.len() ==> #[trigger] table@[i] == (
                pair_token(table.parts().1[i]),
                pair_state(table.parts().1[i]),
            ),
        forall|q: int|
            0 <= q < table.slots() ==> (#[trigger] table.parts().0[q]) == EMPTY || table.parts().0[q] < table@.len(),
        forall|q: int, r: int|
            0 <= q < table.slots() && 0 <= r < table.slots() && q != r && (#[trigger] table.parts().0[q]) == (
            #[trigger] table.parts().0[r]) ==> table.parts().0[q] == EMPTY,
        forall|i: int|
            0 <= i < table@.len() ==> #[trigger] refers(table.parts().0, table.slots() as int, i),
{
    assert forall|i: int| 0 <= i < table@.len() implies #[trigger] refers(
        table.parts().0,
        table.slots() as int,
        i,
    ) by {
        let mask = mask_of(table.index@.len());
        let token = pair_token(table.pairs@[i]);
        lemma_mask(table.index.len(), mask);
        assert(linked(table.index@, mask, token, i));
        let k = choose|k: int| reaches(table.index@, mask, token, i, k);
        let q = slot(home(token, mask), k, mask);
        assert(0 <= q < table.slots() && table.parts().0[q] == i);
    }
}

/// The hash table and the packed entries are all that there is to a table.
pub proof fn law_parts_determine(a: StateTransitions, b: StateTransitions)
    requires
        a.parts() == b.parts(),
    ensures
        a@ == b@,
        a.slots() == b.slots(),
        a.sound() == b.sound(),
        a.wf() == b.wf(),
{
    assert(a@ =~= b@);
    assert(a.index.len() == b.index.len());
}

/// Iterator over the tokens of a transition table: the low halves of its entries.
pub struct Tokens<'a> {
    pairs: &'a [u64],
    pos: usize,
}

impl<'a> Tokens<'a> {
    /// The tokens that are still to come.
    pub closed spec fn remaining(&self) -> Seq<TokenId> {
        if self.pos <= self.pairs@.len() {
            Seq::new((self.pairs@.len() - self.pos) as nat, |i: int| pair_token(self.pairs@[self.pos + i]))
        } else {
            Seq::empty()
        }
    }

    /// The next token, or `None` at the end.
    pub fn next(&mut self) -> (r: Option<TokenId>)
        ensures
            old(self).remaining().len() == 0 ==> r is None && final(self).remaining() == old(self).remaining(),
            old(self).remaining().len() > 0 ==> r == Some(old(self).remaining()[0]) && final(self).remaining() == old(self).remaining().skip(1),
    {
        if self.pos >= self.pairs.len() {
            return None;
        }
        let token: TokenId = self.pairs[self.pos] as u32;
        self.pos = self.pos + 1;
        assert(self.remaining() =~= old(self).remaining().skip(1));
        Some(token)
    }
}

/// Iterator over the states of a transition table: the high halves of its entries.
pub struct States<'a> {
    pairs: &'a [u64],
    pos: usize,
}

impl<'a> States<'a> {
    /// The states that are still to come.
    pub closed spec fn remaining(&self) -> Seq<StateId> {
        if self.pos <= self.pairs@.len() {
            Seq::new((self.pairs@.len() - self.pos) as nat, |i: int| pair_state(self.pairs@[self.pos + i]))
        } else {
            Seq::empty()
        }
    }

    /// The next state, or `None` at the end.
    pub fn next(&mut self) -> (r: Option<StateId>)
        ensures
            old(self).remaining().len() == 0 ==> r is None && final(self).remaining() == old(self).remaining(),
            old(self).remaining().len() > 0 ==> r == Some(old(self).remaining()[0]) && final(self).remaining() == old(self).remaining().skip(1),
    {
        if self.pos >= self.pairs.len() {
            return None;
        }
        let state: StateId = (self.pairs[self.pos] >> 32) as u32;
        self.pos = self.pos + 1;
        assert(self.remaining() =~= old(self).remaining().skip(1));
        Some(state)
    }
}

} // verus!
