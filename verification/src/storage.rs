use vstd::prelude::*;
use crate::servo::ServoState;

verus! {

/// The size of the flash sector that holds the valve log.
pub const STORAGE_SECTOR_SIZE: u32 = 4096;

/// The number of bits in that sector.
pub const BITS_PER_SECTOR: u32 = 32768;

/// Bit `i` of the sector, bits numbered from the least significant bit of
/// byte 0 (so bit `i` of the little-endian 32-bit word `i / 32` is bit
/// `i % 32` of that word).
pub open spec fn bit_set(sector: Seq<u8>, i: int) -> bool {
    byte_bit(sector[i / 8], i % 8)
}

/// Bit `t` (0 = least significant) of a byte.
pub open spec fn byte_bit(b: u8, t: int) -> bool {
    (b >> (t as u8)) & 1u8 == 1u8
}

/// The index of the first set bit at or after `i`, or the number of bits when
/// there is none.
pub open spec fn first_set_from(sector: Seq<u8>, i: nat) -> nat
    decreases 8 * sector.len() - i,
{
    if i >= 8 * sector.len() {
        8 * sector.len()
    } else if bit_set(sector, i as int) {
        i
    } else {
        first_set_from(sector, i + 1)
    }
}

/// The number of valve transitions logged: erasing sets every bit, and each
/// transition clears the next one, so it is the index of the first set bit.
pub open spec fn transition_count(sector: Seq<u8>) -> nat {
    first_set_from(sector, 0)
}

/// The valve state a transition count stands for: open after an odd number.
pub open spec fn state_of_count(count: nat) -> ServoState {
    if count % 2 == 1 {
        ServoState::Open
    } else {
        ServoState::Close
    }
}

/// A sector in the shape that erasing and logging keep: the first `count`
/// bits cleared and all the others set.
pub open spec fn well_formed(sector: Seq<u8>) -> bool {
    &&& sector.len() == 4096
    &&& forall|i: int| 0 <= i < 32768 ==> (bit_set(sector, i) <==> i >= transition_count(sector))
}

/// An erased sector: every byte 0xFF.
pub open spec fn erased_sector() -> Seq<u8> {
    Seq::new(4096, |i: int| 0xFFu8)
}

/// The sector with bit `i` cleared.
pub open spec fn clear_bit_in(sector: Seq<u8>, i: int) -> Seq<u8> {
    sector.update(i / 8, sector[i / 8] & !(1u8 << ((i % 8) as u8)))
}

/// A flash operation on the log sector: erase it, or write four bytes at a
/// word-aligned offset into it.
pub enum FlashOp {
    Erase,
    Write { offset: u32, data: [u8; 4] },
}

/// What a `FlashOp` does to the sector's contents.
pub open spec fn apply_op(sector: Seq<u8>, op: FlashOp) -> Seq<u8> {
    match op {
        FlashOp::Erase => erased_sector(),
        FlashOp::Write { offset, data } => {
            sector.subrange(0, offset as int) + data@ + sector.subrange(offset + 4, sector.len() as int)
        },
    }
}

pub open spec fn apply_ops(sector: Seq<u8>, ops: Seq<FlashOp>) -> Seq<u8>
    decreases ops.len(),
{
    if ops.len() == 0 {
        sector
    } else {
        apply_op(apply_ops(sector, ops.drop_last()), ops.last())
    }
}

/// The sector content after saving `state`: nothing changes when the log
/// already says so; a full log is erased first (and bit 0 cleared for an
/// open valve); otherwise the next bit is cleared.
pub open spec fn saved_sector(sector: Seq<u8>, state: ServoState) -> Seq<u8> {
    let count = transition_count(sector);
    if state_of_count(count) == state {
        sector
    } else if count >= 32767 {
        if state == ServoState::Open {
            clear_bit_in(erased_sector(), 0)
        } else {
            erased_sector()
        }
    } else {
        clear_bit_in(sector, count as int)
    }
}

/// The lowest set bit of a nonzero byte.
fn lowest_set_bit(b: u8) -> (k: u32)
    requires
        b != 0,
    ensures
        k < 8,
        byte_bit(b, k as int),
        forall|t: int| 0 <= t < k ==> !#[trigger] byte_bit(b, t),
{
    if b & 1 != 0 {
        assert((b >> 0u8) & 1u8 == 1u8) by (bit_vector) requires b & 1 != 0;
        0
    } else if b & 2 != 0 {
        assert((b >> 0u8) & 1u8 == 0u8 && (b >> 1u8) & 1u8 == 1u8) by (bit_vector) requires b & 1 == 0, b & 2 != 0;
        assert forall|t: int| 0 <= t < 1 implies !#[trigger] byte_bit(b, t) by { assert(t == 0); }
        1
    } else if b & 4 != 0 {
        assert((b >> 0u8) & 1u8 == 0u8 && (b >> 1u8) & 1u8 == 0u8 && (b >> 2u8) & 1u8 == 1u8) by (bit_vector)
            requires b & 1 == 0, b & 2 == 0, b & 4 != 0;
        assert forall|t: int| 0 <= t < 2 implies !#[trigger] byte_bit(b, t) by { assert(t == 0 || t == 1); }
        2
    } else if b & 8 != 0 {
        assert((b >> 0u8) & 1u8 == 0u8 && (b >> 1u8) & 1u8 == 0u8 && (b >> 2u8) & 1u8 == 0u8 && (b >> 3u8) & 1u8
            == 1u8) by (bit_vector)
            requires b & 1 == 0, b & 2 == 0, b & 4 == 0, b & 8 != 0;
        assert forall|t: int| 0 <= t < 3 implies !#[trigger] byte_bit(b, t) by { assert(t == 0 || t == 1 || t == 2); }
        3
    } else if b & 16 != 0 {
        assert((b >> 0u8) & 1u8 == 0u8 && (b >> 1u8) & 1u8 == 0u8 && (b >> 2u8) & 1u8 == 0u8 && (b >> 3u8) & 1u8
            == 0u8 && (b >> 4u8) & 1u8 == 1u8) by (bit_vector)
            requires b & 1 == 0, b & 2 == 0, b & 4 == 0, b & 8 == 0, b & 16 != 0;
        assert forall|t: int| 0 <= t < 4 implies !#[trigger] byte_bit(b, t) by {
            assert(t == 0 || t == 1 || t == 2 || t == 3);
        }
        4
    } else if b & 32 != 0 {
        assert((b >> 0u8) & 1u8 == 0u8 && (b >> 1u8) & 1u8 == 0u8 && (b >> 2u8) & 1u8 == 0u8 && (b >> 3u8) & 1u8
            == 0u8 && (b >> 4u8) & 1u8 == 0u8 && (b >> 5u8) & 1u8 == 1u8) by (bit_vector)
            requires b & 1 == 0, b & 2 == 0, b & 4 == 0, b & 8 == 0, b & 16 == 0, b & 32 != 0;
        assert forall|t: int| 0 <= t < 5 implies !#[trigger] byte_bit(b, t) by {
            assert(t == 0 || t == 1 || t == 2 || t == 3 || t == 4);
        }
        5
    } else if b & 64 != 0 {
        assert((b >> 0u8) & 1u8 == 0u8 && (b >> 1u8) & 1u8 == 0u8 && (b >> 2u8) & 1u8 == 0u8 && (b >> 3u8) & 1u8
            == 0u8 && (b >> 4u8) & 1u8 == 0u8 && (b >> 5u8) & 1u8 == 0u8 && (b >> 6u8) & 1u8 == 1u8) by (bit_vector)
            requires b & 1 == 0, b & 2 == 0, b & 4 == 0, b & 8 == 0, b & 16 == 0, b & 32 == 0, b & 64 != 0;
        assert forall|t: int| 0 <= t < 6 implies !#[trigger] byte_bit(b, t) by {
            assert(t == 0 || t == 1 || t == 2 || t == 3 || t == 4 || t == 5);
        }
        6
    } else {
        assert((b >> 0u8) & 1u8 == 0u8 && (b >> 1u8) & 1u8 == 0u8 && (b >> 2u8) & 1u8 == 0u8 && (b >> 3u8) & 1u8
            == 0u8 && (b >> 4u8) & 1u8 == 0u8 && (b >> 5u8) & 1u8 == 0u8 && (b >> 6u8) & 1u8 == 0u8 && (b >> 7u8)
            & 1u8 == 1u8) by (bit_vector)
            requires b != 0, b & 1 == 0, b & 2 == 0, b & 4 == 0, b & 8 == 0, b & 16 == 0, b & 32 == 0, b & 64 == 0;
        assert forall|t: int| 0 <= t < 7 implies !#[trigger] byte_bit(b, t) by {
            assert(t == 0 || t == 1 || t == 2 || t == 3 || t == 4 || t == 5 || t == 6);
        }
        7
    }
}

/// Bit `8 * j + t` of the sector is bit `t` of byte `j`.
pub proof fn lemma_bit_of_byte(sector: Seq<u8>, j: int, t: int)
    requires
        0 <= t < 8,
    ensures
        bit_set(sector, 8 * j + t) == byte_bit(sector[j], t),
{
    vstd::arithmetic::div_mod::lemma_fundamental_div_mod_converse(8 * j + t, 8, j, t);
}

/// Skipping `n` cleared bits does not change the first set bit.
pub proof fn lemma_skip_cleared(sector: Seq<u8>, i: nat, n: nat)
    requires
        i + n <= 8 * sector.len(),
        forall|t: int| i <= t < i + n ==> !bit_set(sector, t),
    ensures
        first_set_from(sector, i) == first_set_from(sector, i + n),
    decreases n,
{
    if n > 0 {
        lemma_skip_cleared(sector, i + 1, (n - 1) as nat);
    }
}


/// The flash operations that saving `state` performs on the sector.
pub open spec fn save_ops(sector: Seq<u8>, state: ServoState) -> Seq<FlashOp> {
    let count = transition_count(sector);
    if state_of_count(count) == state {
        Seq::empty()
    } else if count >= 32767 {
        if state == ServoState::Open {
            seq![FlashOp::Erase, clear_bit_op(erased_sector(), 0)]
        } else {
            seq![FlashOp::Erase]
        }
    } else {
        seq![clear_bit_op(sector, count as int)]
    }
}

/// The write that clears bit `i`: the word holding it, rewritten with that
/// bit cleared.
pub open spec fn clear_bit_op(sector: Seq<u8>, i: int) -> FlashOp {
    let offset = (i / 32) * 4;
    FlashOp::Write {
        offset: offset as u32,
        data: [
            clear_bit_in(sector, i)[offset],
            clear_bit_in(sector, i)[offset + 1],
            clear_bit_in(sector, i)[offset + 2],
            clear_bit_in(sector, i)[offset + 3],
        ],
    }
}

/// Clearing bit `k` of a byte changes no other bit.
pub proof fn lemma_clear_byte_bit(b: u8, k: u8, t: u8)
    requires
        k < 8,
        t < 8,
    ensures
        ((b & !(1u8 << k)) >> t) & 1u8 == (if t == k {
            0u8
        } else {
            (b >> t) & 1u8
        }),
{
    assert(((b & !(1u8 << k)) >> t) & 1u8 == (if t == k {
        0u8
    } else {
        (b >> t) & 1u8
    })) by (bit_vector)
        requires
            k < 8,
            t < 8,
    ;
}

/// Clearing bit `c` changes bit `c` only, and clears it.
pub proof fn lemma_clear_bit_in(sector: Seq<u8>, c: int, i: int)
    requires
        0 <= c < 8 * sector.len(),
        0 <= i < 8 * sector.len(),
    ensures
        clear_bit_in(sector, c).len() == sector.len(),
        bit_set(clear_bit_in(sector, c), i) == (i != c && bit_set(sector, i)),
{
    vstd::arithmetic::div_mod::lemma_fundamental_div_mod(i, 8);
    vstd::arithmetic::div_mod::lemma_fundamental_div_mod(c, 8);
    lemma_clear_byte_bit(sector[c / 8], (c % 8) as u8, (i % 8) as u8);
}

/// In a sector whose first `c` bits are clear and whose others are set, the
/// transition count is `c`.
pub proof fn lemma_thermometer_count(sector: Seq<u8>, c: nat)
    requires
        sector.len() == 4096,
        c <= 32768,
        forall|i: int| 0 <= i < 32768 ==> (bit_set(sector, i) <==> i >= c),
    ensures
        transition_count(sector) == c,
{
    lemma_skip_cleared(sector, 0, c);
}

/// An erased sector has every bit set, logs no transition (a closed valve),
/// and is well formed.
pub proof fn law_erased_sector_is_closed()
    ensures
        forall|i: int| 0 <= i < 32768 ==> bit_set(erased_sector(), i),
        transition_count(erased_sector()) == 0,
        state_of_count(transition_count(erased_sector())) == ServoState::Close,
        well_formed(erased_sector()),
{
    assert forall|i: int| 0 <= i < 32768 implies bit_set(erased_sector(), i) by {
        let t = (i % 8) as u8;
        assert((0xFFu8 >> t) & 1u8 == 1u8) by (bit_vector)
            requires
                t < 8,
        ;
    }
    lemma_thermometer_count(erased_sector(), 0);
}

/// Saving a state into a well-formed log keeps it well formed, and loading
/// afterwards gives back the state saved.
pub proof fn law_save_then_load(sector: Seq<u8>, state: ServoState)
    requires
        well_formed(sector),
    ensures
        well_formed(saved_sector(sector, state)),
        state_of_count(transition_count(saved_sector(sector, state))) == state,
{
    let c = transition_count(sector);
    law_erased_sector_is_closed();
    if state_of_count(c) == state {
    } else if c >= 32767 {
        if state == ServoState::Open {
            let e = clear_bit_in(erased_sector(), 0);
            assert forall|i: int| 0 <= i < 32768 implies (bit_set(e, i) <==> i >= 1) by {
                lemma_clear_bit_in(erased_sector(), 0, i);
            }
            lemma_thermometer_count(e, 1);
        }
    } else {
        assert(c <= 32768) by {
            if c > 32768 {
                assert(bit_set(sector, 0) <==> 0 >= c);
                lemma_skip_cleared(sector, 0, 32768);
            }
        }
        let e = clear_bit_in(sector, c as int);
        assert forall|i: int| 0 <= i < 32768 implies (bit_set(e, i) <==> i >= c + 1) by {
            lemma_clear_bit_in(sector, c as int, i);
        }
        lemma_thermometer_count(e, c + 1);
    }
}

/// A write that only turns bits from 1 to 0, which NOR flash can do without
/// an erase.
pub open spec fn only_clears_bits(before: Seq<u8>, op: FlashOp) -> bool {
    match op {
        FlashOp::Erase => true,
        FlashOp::Write { offset, data } => forall|m: int|
            0 <= m < 4 ==> #[trigger] data@[m] & before[offset + m] == data@[m],
    }
}

/// The write that clears a bit only clears bits.
pub proof fn lemma_clear_bit_op_only_clears(sector: Seq<u8>, i: int)
    requires
        sector.len() == 4096,
        0 <= i < 32768,
    ensures
        only_clears_bits(sector, clear_bit_op(sector, i)),
{
    let offset = (i / 32) * 4;
    let e = clear_bit_in(sector, i);
    assert forall|m: int| 0 <= m < 4 implies #[trigger] e[offset + m] & sector[offset + m] == e[offset + m] by {
        let b = sector[offset + m];
        let k = (i % 8) as u8;
        if offset + m == i / 8 {
            assert((b & !(1u8 << k)) & b == b & !(1u8 << k)) by (bit_vector);
        } else {
            assert(b & b == b) by (bit_vector);
        }
    }
}

/// Every write that saving performs only clears bits of the sector as it is
/// at that point (erasing is the only way bits are set again).
pub proof fn law_save_writes_only_clear_bits(sector: Seq<u8>, state: ServoState)
    requires
        sector.len() == 4096,
    ensures
        forall|k: int|
            0 <= k < save_ops(sector, state).len() ==> only_clears_bits(
                apply_ops(sector, save_ops(sector, state).take(k)),
                #[trigger] save_ops(sector, state)[k],
            ),
{
    let c = transition_count(sector);
    let ops = save_ops(sector, state);
    law_erased_sector_is_closed();
    if state_of_count(c) != state {
        if c >= 32767 {
            if state == ServoState::Open {
                lemma_clear_bit_op_only_clears(erased_sector(), 0);
                reveal_with_fuel(apply_ops, 2);
                assert(ops.take(1) =~= seq![FlashOp::Erase]);
                assert(ops.take(1).drop_last() =~= Seq::<FlashOp>::empty());
            }
        } else {
            assert(c < 32767);
            lemma_clear_bit_op_only_clears(sector, c as int);
            assert(ops.take(0) =~= Seq::<FlashOp>::empty());
        }
    }
}

/// The log in a flash sector. `ValveStorage` keeps a copy of the sector's
/// bytes; the caller reads the sector into it and performs on the flash the
/// operations that `save` returns, which turn the flash into the copy.
pub struct ValveStorage {
    sector: Vec<u8>,
}

impl View for ValveStorage {
    type V = Seq<u8>;

    closed spec fn view(&self) -> Seq<u8> {
        self.sector@
    }
}

impl ValveStorage {
    #[verifier::type_invariant]
    spec fn inv(self) -> bool {
        self.sector@.len() == 4096
    }

    /// The offset of the log sector, the last sector of a flash of
    /// `capacity` bytes.
    pub fn sector_offset(capacity: u32) -> (r: u32)
        requires
            capacity >= STORAGE_SECTOR_SIZE,
        ensures
            r == capacity - STORAGE_SECTOR_SIZE,
    {
        capacity - STORAGE_SECTOR_SIZE
    }

    /// A log over the given content of the sector.
    pub fn new(sector: Vec<u8>) -> (r: Self)
        requires
            sector@.len() == STORAGE_SECTOR_SIZE,
        ensures
            r@ == sector@,
    {
        ValveStorage { sector }
    }

    /// The number of transitions logged: the index of the first set bit.
    pub fn transition_count(&self) -> (r: u32)
        ensures
            r == transition_count(self@),
            r <= BITS_PER_SECTOR,
    {
        proof {
            use_type_invariant(self);
        }
        let ghost s = self.sector@;
        let mut j: usize = 0;
        while j < 4096
            invariant
                j <= 4096,
                s == self.sector@,
                s.len() == 4096,
                first_set_from(s, 0) == first_set_from(s, 8 * j as nat),
            decreases 4096 - j,
        {
            let b = self.sector[j];
            if b != 0 {
                let k = lowest_set_bit(b);
                proof {
                    assert forall|t: int| 8 * j <= t < 8 * j + k implies !bit_set(s, t) by {
                        lemma_bit_of_byte(s, j as int, t - 8 * j);
                    }
                    lemma_skip_cleared(s, 8 * j as nat, k as nat);
                    lemma_bit_of_byte(s, j as int, k as int);
                }
                return (8 * j as u32) + k;
            }
            proof {
                assert forall|t: int| 8 * j <= t < 8 * j + 8 implies !bit_set(s, t) by {
                    let u = (t - 8 * j) as u8;
                    assert((0u8 >> u) & 1u8 == 0u8) by (bit_vector);
                    lemma_bit_of_byte(s, j as int, t - 8 * j);
                }
                lemma_skip_cleared(s, 8 * j as nat, 8);
            }
            j = j + 1;
        }
        BITS_PER_SECTOR
    }

    /// The valve state the log records.
    pub fn load(&self) -> (r: ServoState)
        ensures
            r == state_of_count(transition_count(self@)),
    {
        let count = self.transition_count();
        if count % 2 == 1 {
            ServoState::Open
        } else {
            ServoState::Close
        }
    }

    /// Clears bit `bit_idx` in the copy and returns the write that does the
    /// same on the flash.
    fn clear_bit(&mut self, bit_idx: u32) -> (op: FlashOp)
        requires
            bit_idx < BITS_PER_SECTOR,
        ensures
            final(self)@ == clear_bit_in(old(self)@, bit_idx as int),
            op == clear_bit_op(old(self)@, bit_idx as int),
            apply_op(old(self)@, op) == final(self)@,
    {
        proof {
            use_type_invariant(&*self);
        }
        let ghost before = self.sector@;
        let word_idx = bit_idx / 32;
        let offset = word_idx * 4;
        let byte_idx = (bit_idx / 8) as usize;
        let mask: u8 = !(1u8 << ((bit_idx % 8) as u8));
        let cleared = self.sector[byte_idx] & mask;
        let mut sector: Vec<u8> = self.sector.clone();
        proof {
            assert(sector@ =~= before);
        }
        sector.set(byte_idx, cleared);
        self.sector = sector;
        let o = offset as usize;
        let data = [self.sector[o], self.sector[o + 1], self.sector[o + 2], self.sector[o + 3]];
        proof {
            assert(self.sector@ == clear_bit_in(before, bit_idx as int));
            assert(apply_op(before, FlashOp::Write { offset, data }) =~= self.sector@);
        }
        FlashOp::Write { offset, data }
    }

    /// Records `state`: does nothing when the log already says so; when the
    /// log is full, erases the sector (and clears bit 0 for an open valve);
    /// otherwise clears the next bit. Returns the flash operations, in order.
    pub fn save(&mut self, state: ServoState) -> (ops: Vec<FlashOp>)
        ensures
            final(self)@ == saved_sector(old(self)@, state),
            ops@ == save_ops(old(self)@, state),
            apply_ops(old(self)@, ops@) == final(self)@,
    {
        proof {
            use_type_invariant(&*self);
        }
        let count = self.transition_count();
        let target: u32 = match state {
            ServoState::Open => 1,
            ServoState::Close => 0,
        };
        let mut ops: Vec<FlashOp> = Vec::new();
        if count % 2 == target {
            proof {
                assert(ops@ =~= save_ops(old(self)@, state));
            }
            return ops;
        }
        if count >= BITS_PER_SECTOR - 1 {
            self.sector = vec_of_ff();
            ops.push(FlashOp::Erase);
            proof {
                reveal_with_fuel(apply_ops, 3);
                assert(ops@.drop_last() =~= Seq::<FlashOp>::empty());
                assert(apply_ops(old(self)@, ops@) == erased_sector());
            }
            if let ServoState::Open = state {
                let ghost erase_only = ops@;
                let op = self.clear_bit(0);
                ops.push(op);
                proof {
                    assert(ops@.drop_last() =~= erase_only);
                }
            }
            proof {
                assert(ops@ =~= save_ops(old(self)@, state));
            }
            return ops;
        }
        let op = self.clear_bit(count);
        ops.push(op);
        proof {
            reveal_with_fuel(apply_ops, 2);
            assert(ops@ =~= save_ops(old(self)@, state));
            assert(ops@.drop_last() =~= Seq::<FlashOp>::empty());
        }
        ops
    }
}

/// An erased sector's bytes.
fn vec_of_ff() -> (r: Vec<u8>)
    ensures
        r@ == erased_sector(),
{
    let mut v: Vec<u8> = Vec::new();
    let mut i: usize = 0;
    while i < 4096
        invariant
            i <= 4096,
            v@ == Seq::new(i as nat, |k: int| 0xFFu8),
        decreases 4096 - i,
    {
        v.push(0xFF);
        i = i + 1;
        proof {
            assert(v@ =~= Seq::new(i as nat, |k: int| 0xFFu8));
        }
    }
    v
}

} // verus!
