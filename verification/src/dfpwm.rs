//! The DFPWM encoder: a one-bit adaptive delta modulator over signed 8-bit
//! levels, packing eight decisions into each output byte.

use vstd::prelude::*;

verus! {

/// Highest value the integrator is driven towards.
pub const RAIL_HIGH: i32 = 127;

/// Lowest value the integrator is driven towards.
pub const RAIL_LOW: i32 = -128;

/// One unit of strength: the strength has ten fractional bits.
pub const STRENGTH_ONE: i32 = 1024;

/// Half a unit of strength, added before scaling down so that the update
/// rounds half up.
pub const STRENGTH_HALF: i32 = 512;

/// The strength a run of equal decisions climbs to.
pub const STRENGTH_MAX: i32 = 1023;

/// The strength never settles below this value.
pub const STRENGTH_FLOOR: i32 = 8;

/// The modulator's state, as mathematical integers.
pub struct EncoderState {
    /// The integrator that follows the signal.
    pub charge: int,
    /// The adaptive gain, in units of 1/1024.
    pub strength: int,
    /// The decision made for the previous sample.
    pub previous_bit: bool,
}

/// The state every stream starts from.
pub open spec fn initial_state() -> EncoderState {
    EncoderState { charge: 0, strength: 0, previous_bit: false }
}

/// The states a modulator can be in: the charge lies within the rails and
/// the strength between zero and its maximum.
pub open spec fn state_in_range(s: EncoderState) -> bool {
    &&& RAIL_LOW <= s.charge <= RAIL_HIGH
    &&& 0 <= s.strength <= STRENGTH_MAX
}

/// The one-bit decision for `level`: set when the level lies above the
/// charge, and also when both sit on the high rail.
pub open spec fn decide(charge: int, level: int) -> bool {
    level > charge || (level == charge && charge == RAIL_HIGH)
}

/// The rail a decision drives the charge towards.
pub open spec fn target_of(bit: bool) -> int {
    if bit {
        RAIL_HIGH as int
    } else {
        RAIL_LOW as int
    }
}

/// The charge after one sample decided as `bit`: it moves towards the target
/// by the strength's share of the distance, rounded half up, and by one unit
/// where that share rounds to nothing before the target is reached.
pub open spec fn charge_after(charge: int, strength: int, bit: bool) -> int {
    let target = target_of(bit);
    let moved = charge + (strength * (target - charge) + STRENGTH_HALF) / (STRENGTH_ONE as int);
    if moved == charge && moved != target {
        if bit {
            charge + 1
        } else {
            charge - 1
        }
    } else {
        moved
    }
}

/// The strength after one sample: it climbs by one towards the maximum
/// while the decision repeats, falls by one towards zero when it flips, and
/// is then held at the floor.
pub open spec fn strength_after(strength: int, repeats: bool) -> int {
    let goal = if repeats {
        STRENGTH_MAX as int
    } else {
        0
    };
    let nudged = if strength == goal {
        strength
    } else if repeats {
        strength + 1
    } else {
        strength - 1
    };
    if nudged < STRENGTH_FLOOR {
        STRENGTH_FLOOR as int
    } else {
        nudged
    }
}

/// The state after consuming one sample.
pub open spec fn step(s: EncoderState, level: int) -> EncoderState {
    let bit = decide(s.charge, level);
    EncoderState {
        charge: charge_after(s.charge, s.strength, bit),
        strength: strength_after(s.strength, bit == s.previous_bit),
        previous_bit: bit,
    }
}

/// The state after the first `n` samples of `levels`, starting from the
/// initial state.
pub open spec fn state_after(levels: Seq<i8>, n: nat) -> EncoderState
    decreases n,
{
    if n == 0 {
        initial_state()
    } else {
        step(state_after(levels, (n - 1) as nat), levels[n - 1] as int)
    }
}

/// The decision made for sample `i` of `levels`.
pub open spec fn decision(levels: Seq<i8>, i: int) -> bool {
    decide(state_after(levels, i as nat).charge, levels[i] as int)
}

/// The share of the scaled distance that the charge moves by.
proof fn lemma_share_within_distance(strength: int, distance: int)
    requires
        0 <= strength <= STRENGTH_MAX,
        0 <= distance <= 255,
    ensures
        0 <= strength * distance <= 1023 * 255,
        0 <= (strength * distance + STRENGTH_HALF) / (STRENGTH_ONE as int) <= distance,
        -distance <= (strength * (-distance) + STRENGTH_HALF) / (STRENGTH_ONE as int) <= 0,
        strength * (-distance) == -(strength * distance),
{
    assert(0 <= strength * distance <= 1023 * distance) by (nonlinear_arith)
        requires
            0 <= strength <= 1023,
            0 <= distance,
    ;
    assert(strength * (-distance) == -(strength * distance)) by (nonlinear_arith);
}

/// A step keeps the state within range, and from its first step on the
/// strength is at least the floor.
pub proof fn lemma_step_in_range(s: EncoderState, level: int)
    requires
        state_in_range(s),
    ensures
        state_in_range(step(s, level)),
        step(s, level).strength >= STRENGTH_FLOOR,
{
    let bit = decide(s.charge, level);
    let target = target_of(bit);
    if bit {
        lemma_share_within_distance(s.strength, target - s.charge);
    } else {
        lemma_share_within_distance(s.strength, s.charge - target);
        assert(target - s.charge == -(s.charge - target));
    }
}

/// The modulator: the state that turns one level at a time into one bit.
#[derive(Clone, Copy, Debug)]
pub struct Modulator {
    charge: i32,
    strength: i32,
    previous_bit: bool,
}

impl View for Modulator {
    type V = EncoderState;

    closed spec fn view(&self) -> EncoderState {
        EncoderState {
            charge: self.charge as int,
            strength: self.strength as int,
            previous_bit: self.previous_bit,
        }
    }
}

impl Modulator {
    #[verifier::type_invariant]
    spec fn in_range(self) -> bool {
        state_in_range(self@)
    }

    /// A modulator in the initial state.
    pub fn new() -> (m: Self)
        ensures
            m@ == initial_state(),
    {
        Modulator { charge: 0, strength: 0, previous_bit: false }
    }

    /// The integrator's value.
    pub fn charge(&self) -> (charge: i32)
        ensures
            charge == self@.charge,
            RAIL_LOW <= charge <= RAIL_HIGH,
    {
        proof {
            use_type_invariant(self);
        }
        self.charge
    }

    /// The adaptive gain, in units of 1/1024.
    pub fn strength(&self) -> (strength: i32)
        ensures
            strength == self@.strength,
            0 <= strength <= STRENGTH_MAX,
    {
        proof {
            use_type_invariant(self);
        }
        self.strength
    }

    /// The decision made for the sample consumed last.
    pub fn previous_bit(&self) -> (bit: bool)
        ensures
            bit == self@.previous_bit,
    {
        self.previous_bit
    }

    /// Consumes one level and returns the bit decided for it.
    pub fn encode_sample(&mut self, level: i8) -> (bit: bool)
        ensures
            bit == decide(old(self)@.charge, level as int),
            final(self)@ == step(old(self)@, level as int),
            state_in_range(final(self)@),
            final(self)@.strength >= STRENGTH_FLOOR,
    {
        proof {
            use_type_invariant(&*self);
            lemma_step_in_range(self@, level as int);
        }
        let level: i32 = level as i32;
        let bit = level > self.charge || (level == self.charge && self.charge == RAIL_HIGH);
        let target: i32 = if bit {
            RAIL_HIGH
        } else {
            RAIL_LOW
        };
        let distance: i32 = target - self.charge;
        proof {
            if bit {
                lemma_share_within_distance(self.strength as int, distance as int);
            } else {
                lemma_share_within_distance(self.strength as int, -distance as int);
            }
        }
        let scaled: i32 = self.strength * distance + STRENGTH_HALF;
        assert(scaled >> 10 == scaled / 1024) by (bit_vector);
        let mut next_charge: i32 = self.charge + (scaled >> 10);
        if next_charge == self.charge && next_charge != target {
            next_charge = if bit {
                next_charge + 1
            } else {
                next_charge - 1
            };
        }
        let repeats = bit == self.previous_bit;
        let goal: i32 = if repeats {
            STRENGTH_MAX
        } else {
            0
        };
        let mut next_strength: i32 = self.strength;
        if self.strength != goal {
            next_strength = if repeats {
                next_strength + 1
            } else {
                next_strength - 1
            };
        }
        if next_strength < STRENGTH_FLOOR {
            next_strength = STRENGTH_FLOOR;
        }
        self.charge = next_charge;
        self.strength = next_strength;
        self.previous_bit = bit;
        bit
    }
}

/// The value of bits `j` and up of output byte `k`, counted from bit `j`:
/// the number whose binary digits, least significant first, are the
/// decisions for samples `8 * k + j`, `8 * k + j + 1`, ... up to the byte's
/// eighth sample, a sample past the end of `levels` counting as a clear bit.
pub open spec fn packed_from(levels: Seq<i8>, k: int, j: int) -> int
    decreases 8 - j,
{
    if j >= 8 {
        0
    } else {
        let i = 8 * k + j;
        let digit: int = if i < levels.len() && decision(levels, i) {
            1
        } else {
            0
        };
        digit + 2 * packed_from(levels, k, j + 1)
    }
}

/// The value of output byte `k`.
pub open spec fn byte_at(levels: Seq<i8>, k: int) -> int {
    packed_from(levels, k, 0)
}

/// The number of bytes that `n` samples encode to: one for every eight
/// samples and one more for what is left over.
pub open spec fn encoded_len(n: nat) -> nat {
    ((n + 7) / 8) as nat
}

/// The encoding of `levels`.
pub open spec fn encoded(levels: Seq<i8>) -> Seq<u8> {
    Seq::new(encoded_len(levels.len()), |k: int| byte_at(levels, k) as u8)
}

/// Past the end of the input every bit is clear.
proof fn lemma_packed_past_end(levels: Seq<i8>, k: int, j: int)
    requires
        0 <= j,
        8 * k + j >= levels.len(),
    ensures
        packed_from(levels, k, j) == 0,
    decreases 8 - j,
{
    if j < 8 {
        lemma_packed_past_end(levels, k, j + 1);
    }
}

/// How far an encoder has come: the number of levels consumed, and the
/// modulator as those levels left it.
#[derive(Clone, Copy, Debug)]
struct Cursor {
    position: usize,
    modulator: Modulator,
}

/// An encoder over a buffer of levels, handing out the encoding byte by
/// byte.
pub struct Dfpwm {
    levels: Vec<i8>,
    cursor: Cursor,
}

impl Dfpwm {
    #[verifier::type_invariant]
    spec fn consistent(self) -> bool {
        &&& self.cursor.position <= self.levels.len()
        &&& self.cursor.position % 8 == 0 || self.cursor.position == self.levels.len()
        &&& self.cursor.modulator@ == state_after(self.levels@, self.cursor.position as nat)
    }

    /// The levels this encoder was made over.
    pub closed spec fn levels(&self) -> Seq<i8> {
        self.levels@
    }

    /// The number of bytes handed out so far.
    pub closed spec fn produced(&self) -> nat {
        encoded_len(self.cursor.position as nat)
    }

    /// A fresh encoder over `levels`.
    pub fn new(levels: Vec<i8>) -> (d: Self)
        ensures
            d.levels() == levels@,
            d.produced() == 0,
    {
        Dfpwm { levels, cursor: Cursor { position: 0, modulator: Modulator::new() } }
    }

    /// Hands out the next byte of the encoding, or `None` once all of it
    /// has been handed out.
    pub fn next(&mut self) -> (byte: Option<u8>)
        ensures
            final(self).levels() == old(self).levels(),
            old(self).produced() <= encoded(old(self).levels()).len(),
            old(self).produced() < encoded(old(self).levels()).len() ==> byte == Some(
                encoded(old(self).levels())[old(self).produced() as int],
            ) && final(self).produced() == old(self).produced() + 1,
            old(self).produced() == encoded(old(self).levels()).len() ==> byte.is_none()
                && final(self).produced() == old(self).produced(),
    {
        proof {
            use_type_invariant(&*self);
        }
        let n: usize = self.levels.len();
        if self.cursor.position >= n {
            return None;
        }
        let ghost k: int = self.cursor.position as int / 8;
        let ghost levels = self.levels@;
        let mut modulator = self.cursor.modulator;
        let mut position: usize = self.cursor.position;
        let mut byte: u8 = 0;
        let mut j: u8 = 0;
        let ghost mut weight: int = 1;
        assert(1u8 << 0u8 == 1) by (bit_vector);
        while j < 8 && position < n
            invariant
                levels == self.levels@,
                n == levels.len(),
                0 <= j <= 8,
                position <= n,
                position == 8 * k + j,
                modulator@ == state_after(levels, position as nat),
                0 <= byte < weight,
                j < 8 ==> weight == (1u8 << j),
                j == 8 ==> weight == 256,
                byte + weight * packed_from(levels, k, j as int) == byte_at(levels, k),
            decreases 8 - j,
        {
            proof {
                lemma_set_bit(byte, j);
                assert(weight * (1 + 2 * packed_from(levels, k, j + 1)) == weight + (2 * weight)
                    * packed_from(levels, k, j + 1)) by (nonlinear_arith);
                assert(weight * (0 + 2 * packed_from(levels, k, j + 1)) == (2 * weight)
                    * packed_from(levels, k, j + 1)) by (nonlinear_arith);
            }
            let bit = modulator.encode_sample(self.levels[position]);
            if bit {
                byte = byte | (1u8 << j);
            }
            position = position + 1;
            j = j + 1;
            proof {
                weight = 2 * weight;
            }
        }
        proof {
            if j < 8 {
                lemma_packed_past_end(levels, k, j as int);
            }
        }
        self.cursor = Cursor { position, modulator };
        Some(byte)
    }

    /// Hands out, in order, every byte that has not been handed out yet.
    pub fn collect(self) -> (bytes: Vec<u8>)
        ensures
            self.produced() <= encoded(self.levels()).len(),
            bytes@ == encoded(self.levels()).skip(self.produced() as int),
    {
        let mut rest = self;
        let mut bytes: Vec<u8> = Vec::new();
        let ghost all = encoded(self.levels());
        proof {
            use_type_invariant(&rest);
        }
        loop
            invariant
                rest.levels() == self.levels(),
                all == encoded(self.levels()),
                self.produced() <= rest.produced() <= all.len(),
                bytes@ =~= all.subrange(self.produced() as int, rest.produced() as int),
            ensures
                rest.produced() == all.len(),
            decreases all.len() - rest.produced(),
        {
            match rest.next() {
                Some(byte) => {
                    bytes.push(byte);
                },
                None => {
                    break ;
                },
            }
        }
        assert(bytes@ =~= all.skip(self.produced() as int));
        bytes
    }
}

/// A buffer of audio levels that can be turned into a stream of encoded
/// bytes.
pub trait AudioIterator: Sized {
    /// The levels the buffer holds, in order.
    spec fn levels(&self) -> Seq<i8>;

    /// Converts an 8-bit mono audio buffer to a DFPWM stream.
    fn to_dfpwm(self) -> (d: Dfpwm)
        ensures
            d.levels() == self.levels(),
            d.produced() == 0,
    ;
}

impl AudioIterator for Vec<i8> {
    open spec fn levels(&self) -> Seq<i8> {
        self@
    }

    fn to_dfpwm(self) -> (d: Dfpwm) {
        Dfpwm::new(self)
    }
}

/// Setting bit `j` of a byte that holds only lower bits adds that bit's
/// weight, and each weight is twice the one before.
proof fn lemma_set_bit(byte: u8, j: u8)
    by (bit_vector)
    requires
        j < 8,
        byte < (1u8 << j),
    ensures
        byte | (1u8 << j) == byte + (1u8 << j),
        j < 7 ==> (1u8 << ((j + 1) as u8)) == 2 * (1u8 << j),
        j == 7 ==> (1u8 << j) == 128,
        j == 0 ==> (1u8 << j) == 1,
{
}

/// Every state an encoder passes through is within range, and once a sample
/// has been consumed the strength is never below the floor.
pub proof fn lemma_strength_never_below_floor(levels: Seq<i8>, n: nat)
    ensures
        state_in_range(state_after(levels, n)),
        n > 0 ==> state_after(levels, n).strength >= STRENGTH_FLOOR,
    decreases n,
{
    if n > 0 {
        lemma_strength_never_below_floor(levels, (n - 1) as nat);
        lemma_step_in_range(state_after(levels, (n - 1) as nat), levels[n - 1] as int);
    }
}

/// The charge never stalls short of its target: a step moves it at least one
/// unit towards the rail the decision points at, and never past that rail.
pub proof fn lemma_charge_moves_towards_target(s: EncoderState, level: int)
    requires
        state_in_range(s),
    ensures
        decide(s.charge, level) ==> s.charge <= step(s, level).charge <= RAIL_HIGH,
        !decide(s.charge, level) ==> RAIL_LOW <= step(s, level).charge <= s.charge,
        s.charge != target_of(decide(s.charge, level)) ==> step(s, level).charge != s.charge,
{
    let bit = decide(s.charge, level);
    let target = target_of(bit);
    if bit {
        lemma_share_within_distance(s.strength, target - s.charge);
    } else {
        lemma_share_within_distance(s.strength, s.charge - target);
        assert(target - s.charge == -(s.charge - target));
    }
}

/// `n` levels encode to `n / 8` bytes, rounded up.
pub proof fn lemma_encoded_length(levels: Seq<i8>)
    ensures
        encoded(levels).len() == (levels.len() + 7) / 8,
        8 * encoded(levels).len() >= levels.len(),
        levels.len() > 0 ==> 8 * (encoded(levels).len() - 1) < levels.len(),
        levels.len() == 0 ==> encoded(levels) =~= Seq::<u8>::empty(),
{
}

/// The encoding depends on nothing but the levels: equal inputs give equal
/// outputs.
pub proof fn lemma_encoding_is_deterministic(a: Seq<i8>, b: Seq<i8>)
    requires
        a =~= b,
    ensures
        encoded(a) == encoded(b),
{
}

/// The packed value of bits `j` and up fits in the bits that are left.
proof fn lemma_packed_bound(levels: Seq<i8>, k: int, j: int, room: int)
    requires
        0 <= j <= 8,
        room == packed_room(8 - j),
    ensures
        0 <= packed_from(levels, k, j) < room,
    decreases 8 - j,
{
    if j < 8 {
        lemma_packed_bound(levels, k, j + 1, packed_room(8 - j - 1));
    }
}

/// The number of values that `bits` binary digits can hold.
spec fn packed_room(bits: int) -> int
    decreases bits,
{
    if bits <= 0 {
        1
    } else {
        2 * packed_room(bits - 1)
    }
}

/// Every output byte is a byte.
pub proof fn lemma_byte_in_range(levels: Seq<i8>, k: int)
    ensures
        0 <= byte_at(levels, k) < 256,
{
    assert(packed_room(8) == 256) by {
        reveal_with_fuel(packed_room, 9);
    }
    lemma_packed_bound(levels, k, 0, 256);
}

/// The binary digit that sample `j` of byte `k` contributes: one where the
/// sample exists and was decided as set.
pub open spec fn digit_at(levels: Seq<i8>, k: int, j: int) -> u8 {
    if 8 * k + j < levels.len() && decision(levels, 8 * k + j) {
        1
    } else {
        0
    }
}

/// Eight binary digits, least significant first, make up a byte whose bit
/// `j` is digit `j`.
proof fn lemma_digits_are_bits(
    b: u8,
    d0: u8,
    d1: u8,
    d2: u8,
    d3: u8,
    d4: u8,
    d5: u8,
    d6: u8,
    d7: u8,
)
    by (bit_vector)
    requires
        d0 <= 1 && d1 <= 1 && d2 <= 1 && d3 <= 1 && d4 <= 1 && d5 <= 1 && d6 <= 1 && d7 <= 1,
        b == d0 + 2 * d1 + 4 * d2 + 8 * d3 + 16 * d4 + 32 * d5 + 64 * d6 + 128 * d7,
    ensures
        (b >> 0u8) & 1 == d0,
        (b >> 1u8) & 1 == d1,
        (b >> 2u8) & 1 == d2,
        (b >> 3u8) & 1 == d3,
        (b >> 4u8) & 1 == d4,
        (b >> 5u8) & 1 == d5,
        (b >> 6u8) & 1 == d6,
        (b >> 7u8) & 1 == d7,
{
}

/// Bit `j` of output byte `k` is the decision for sample `8 * k + j`: the
/// first sample of a byte lands in its lowest bit, and a bit with no sample
/// behind it is clear.
pub proof fn lemma_bit_of_byte(levels: Seq<i8>, k: int, j: u8)
    requires
        0 <= k < encoded(levels).len(),
        j < 8,
    ensures
        ((encoded(levels)[k] >> j) & 1 == 1) <==> (8 * k + j < levels.len() && decision(
            levels,
            8 * k + j,
        )),
{
    let b = encoded(levels)[k];
    lemma_byte_in_range(levels, k);
    assert(byte_at(levels, k) == digit_at(levels, k, 0) + 2 * digit_at(levels, k, 1) + 4
        * digit_at(levels, k, 2) + 8 * digit_at(levels, k, 3) + 16 * digit_at(levels, k, 4) + 32
        * digit_at(levels, k, 5) + 64 * digit_at(levels, k, 6) + 128 * digit_at(levels, k, 7))
        by {
        reveal_with_fuel(packed_from, 9);
    }
    lemma_digits_are_bits(
        b,
        digit_at(levels, k, 0),
        digit_at(levels, k, 1),
        digit_at(levels, k, 2),
        digit_at(levels, k, 3),
        digit_at(levels, k, 4),
        digit_at(levels, k, 5),
        digit_at(levels, k, 6),
        digit_at(levels, k, 7),
    );
}

/// What has been encoded does not depend on what follows: the encoding of
/// the first `8 * k` levels is the first `k` bytes of the encoding of all of
/// them.
pub proof fn lemma_encoding_of_prefix(levels: Seq<i8>, k: nat)
    requires
        8 * k <= levels.len(),
    ensures
        encoded(levels.take(8 * k as int)) == encoded(levels).take(k as int),
{
    let prefix = levels.take(8 * k as int);
    assert forall|b: int| 0 <= b < k implies byte_at(prefix, b) == byte_at(levels, b) by {
        lemma_packed_of_prefix(levels, k, b, 0);
    }
    assert(encoded(prefix) =~= encoded(levels).take(k as int));
}

/// A byte that lies within the first `8 * m` levels depends on those levels
/// alone.
proof fn lemma_packed_of_prefix(levels: Seq<i8>, m: nat, b: int, j: int)
    requires
        8 * m <= levels.len(),
        0 <= b < m,
        0 <= j <= 8,
    ensures
        packed_from(levels.take(8 * m as int), b, j) == packed_from(levels, b, j),
    decreases 8 - j,
{
    if j < 8 {
        lemma_state_of_prefix(levels, 8 * m, (8 * b + j) as nat);
        lemma_packed_of_prefix(levels, m, b, j + 1);
    }
}

/// The state after `n` samples depends on those samples alone.
proof fn lemma_state_of_prefix(levels: Seq<i8>, m: nat, n: nat)
    requires
        n <= m <= levels.len(),
    ensures
        state_after(levels.take(m as int), n) == state_after(levels, n),
    decreases n,
{
    if n > 0 {
        lemma_state_of_prefix(levels, m, (n - 1) as nat);
    }
}

} // verus!
