//! The bitmap that tracks which objects of a pool region are in use: bit
//! `i % 8` of byte `i / 8` is set while object `i` is in use.

use vstd::prelude::*;

verus! {

/// The number of bytes that hold `bits` bits.
pub open spec fn spec_byte_size(bits: int) -> int {
    if bits % 8 == 0 {
        bits / 8
    } else {
        bits / 8 + 1
    }
}

pub fn byte_size(bits: usize) -> (r: usize)
    ensures
        r == spec_byte_size(bits as int),
{
    if bits % 8 == 0 {
        bits / 8
    } else {
        bits / 8 + 1
    }
}

/// Bit `bit` of `byte` is set.
pub open spec fn bit_set(byte: u8, bit: int) -> bool {
    (byte >> (bit as u8)) & 1u8 == 1u8
}

/// Bit `i` of the map is set.
pub open spec fn used(bytes: Seq<u8>, i: int) -> bool {
    bit_set(bytes[i / 8], i % 8)
}

/// The value of the last byte of a cleared map of `bits` bits: the bits
/// past the last object are set, so that they are never handed out.
pub open spec fn pad_byte(bits: usize) -> u8 {
    ((0xFFu32 << (bits % 8) as u32) & 0xFF) as u8
}

/// Every bit of the map past the first `bits` is set.
pub open spec fn padded(bytes: Seq<u8>, bits: int) -> bool {
    forall|i: int| bits <= i < 8 * bytes.len() ==> #[trigger] used(bytes, i)
}

/// Setting other bits of a byte keeps its set bits set.
proof fn lemma_or_keeps_set(b: u8, m: u8, c: int)
    requires
        0 <= c < 8,
        bit_set(b, c),
    ensures
        bit_set(b | m, c),
{
    let k = c as u8;
    assert(((b >> k) & 1u8 == 1u8) ==> (((b | m) >> k) & 1u8 == 1u8)) by (bit_vector)
        requires
            k < 8,
    ;
}

/// Clearing bit `x` of a byte keeps its other set bits set.
proof fn lemma_clear_keeps_other_set(b: u8, x: u8, c: int)
    requires
        x < 8,
        0 <= c < 8,
        c != x,
        bit_set(b, c),
    ensures
        bit_set(b & !(1u8 << x), c),
{
    let k = c as u8;
    assert(((b >> k) & 1u8 == 1u8) ==> (((b & !(1u8 << x)) >> k) & 1u8 == 1u8)) by (bit_vector)
        requires
            k < 8,
            x < 8,
            k != x,
    ;
}

/// The padding byte has every bit from `bits % 8` on set.
proof fn lemma_pad_byte_bits(bits: usize, c: int)
    requires
        bits % 8 != 0,
        bits % 8 <= c < 8,
    ensures
        bit_set(pad_byte(bits), c),
{
    let s = (bits % 8) as u32;
    let k = c as u8;
    assert((((((0xFFu32 << s) & 0xFF) as u8) >> k) & 1u8) == 1u8) by (bit_vector)
        requires
            1 <= s < 8,
            s <= k < 8,
    ;
}

/// The byte that a cleared map holds at `byte`.
pub open spec fn cleared_byte(bits: usize, byte: int) -> u8 {
    if bits % 8 != 0 && byte == spec_byte_size(bits as int) - 1 {
        pad_byte(bits)
    } else {
        0
    }
}

/// The objects in use are exactly the first `n` and those past `bits`.
pub open spec fn holds_first(bytes: Seq<u8>, bits: int, n: int) -> bool {
    forall|j: int| 0 <= j < 8 * bytes.len() ==> (#[trigger] used(bytes, j) <==> (j < n || j >= bits))
}

/// Facts about single bits: every bit of 0xFF is set and none of 0; setting
/// bit `k` changes no other bit; the padding byte keeps the bits below
/// `s` clear.
proof fn lemma_byte_bits(b: u8, k: u8, c: u8, s: u32)
    by (bit_vector)
    requires
        k < 8,
        c < 8,
    ensures
        (0xFFu8 >> c) & 1u8 == 1u8,
        (0u8 >> c) & 1u8 != 1u8,
        (((b | (1u8 << k)) >> c) & 1u8 == 1u8) == (((b >> c) & 1u8 == 1u8) || c == k),
        (1 <= s && s < 8 && (c as u32) < s) ==> (((((0xFFu32 << s) & 0xFF) as u8) >> c) & 1u8 != 1u8),
{
}

/// What `acquire_bit` does to the bytes `before`, leaving `after`, when it
/// returns `r`: `None` when every byte is full; else the first clear bit,
/// which it sets.
pub open spec fn acquired(before: Seq<u8>, after: Seq<u8>, r: Option<usize>) -> bool {
    match r {
        None => after == before && forall|k: int| 0 <= k < before.len() ==> #[trigger] before[k] == 0xFF,
        Some(i) => {
            &&& forall|k: int| 0 <= k < i / 8 ==> #[trigger] before[k] == 0xFF
            &&& i / 8 < before.len()
            &&& !used(before, i as int)
            &&& forall|c: int| 0 <= c < i % 8 ==> #[trigger] bit_set(before[i as int / 8], c)
            &&& after == before.update(i as int / 8, before[i as int / 8] | (1u8 << (i % 8) as u8))
        },
    }
}

/// Once the first `n` objects are in use and no others, handing out an
/// object gives object `n` while there is one, and `None` after the last;
/// so after `clear`, objects come out as 0, 1, 2, ... up to `bits - 1`.
pub proof fn law_acquire_in_order(before: Seq<u8>, after: Seq<u8>, bits: int, n: int, r: Option<usize>)
    requires
        before.len() == spec_byte_size(bits),
        0 <= n <= bits,
        holds_first(before, bits, n),
        acquired(before, after, r),
    ensures
        r == (if n < bits { Some(n as usize) } else { None::<usize> }),
        holds_first(after, bits, if n < bits { n + 1 } else { n }),
{
    let len = before.len() as int;
    assert(bits <= 8 * len) by (nonlinear_arith)
        requires
            len == spec_byte_size(bits),
            0 <= bits,
    ;
    match r {
        None => {
            if n < bits {
                assert(0 <= n / 8 < len && 0 <= n % 8 < 8) by (nonlinear_arith)
                    requires
                        0 <= n < 8 * len,
                ;
                lemma_byte_bits(0, 0, (n % 8) as u8, 0);
                assert(before[n / 8] == 0xFF);
                assert(used(before, n));
            }
        },
        Some(i) => {
            let i = i as int;
            assert(0 <= i % 8 < 8);
            assert(i < 8 * len);
            assert(i < bits) by {
                if i >= bits {
                    assert(used(before, i));
                }
            }
            assert(i >= n) by {
                if i < n {
                    assert(used(before, i));
                }
            }
            assert(i <= n) by {
                if n < i {
                    assert(!used(before, n));
                    assert(n / 8 <= i / 8);
                    if n / 8 < i / 8 {
                        assert(before[n / 8] == 0xFF);
                        lemma_byte_bits(0, 0, (n % 8) as u8, 0);
                    } else {
                        assert(n % 8 < i % 8);
                        assert(bit_set(before[i / 8], n % 8));
                    }
                }
            }
            assert forall|j: int| 0 <= j < 8 * after.len() implies (#[trigger] used(after, j) <==> (j < n + 1
                || j >= bits)) by {
                assert(0 <= j / 8 < len && 0 <= j % 8 < 8) by (nonlinear_arith)
                    requires
                        0 <= j < 8 * len,
                ;
                assert(used(before, j) <==> (j < n || j >= bits));
                if j / 8 == i / 8 {
                    lemma_byte_bits(before[i / 8], (i % 8) as u8, (j % 8) as u8, 0);
                    assert((j % 8 == i % 8) <==> j == i);
                } else {
                    assert(after[j / 8] == before[j / 8]);
                    assert(j != i);
                }
            }
        },
    }
}

/// A free-object bitmap over `bits` objects.
#[derive(Clone, Debug)]
pub struct FreeBitmap {
    bits: usize,
    bytes: Vec<u8>,
}

/// The lowest clear bit of `byte`, which is not all ones.
pub open spec fn first_clear(byte: u8) -> int
    recommends
        byte != 0xFF,
{
    choose|b: int| 0 <= b < 8 && !bit_set(byte, b) && forall|c: int| 0 <= c < b ==> bit_set(byte, c)
}

impl FreeBitmap {
    pub closed spec fn bits(&self) -> usize {
        self.bits
    }

    /// The bytes of the map.
    pub closed spec fn bytes(&self) -> Seq<u8> {
        self.bytes@
    }

    pub open spec fn wf(&self) -> bool {
        &&& self.bytes().len() == spec_byte_size(self.bits() as int)
        &&& self.bits() + 8 <= usize::MAX
    }

    /// The map over `bits` objects held in `bytes`.
    pub fn new(bits: usize, bytes: Vec<u8>) -> (r: FreeBitmap)
        requires
            bytes@.len() == spec_byte_size(bits as int),
            bits + 8 <= usize::MAX,
        ensures
            r.wf(),
            r.bits() == bits,
            r.bytes() == bytes@,
    {
        FreeBitmap { bits, bytes }
    }

    /// Mark every object free; the bits past the last object in the last
    /// byte are set.
    pub fn clear(&mut self)
        requires
            old(self).wf(),
        ensures
            final(self).wf(),
            final(self).bits() == old(self).bits(),
            final(self).bytes() == Seq::new(old(self).bytes().len(), |i: int| cleared_byte(old(self).bits(), i)),
            padded(final(self).bytes(), final(self).bits() as int),
            holds_first(final(self).bytes(), final(self).bits() as int, 0),
    {
        let n = byte_size(self.bits);
        let mut byte: usize = 0;
        while byte < n
            invariant
                n == spec_byte_size(self.bits as int),
                self.bits == old(self).bits,
                self.bits + 8 <= usize::MAX,
                self.bytes@.len() == n,
                byte <= n,
                forall|i: int| 0 <= i < byte ==> self.bytes@[i] == cleared_byte(self.bits, i),
            decreases n - byte,
        {
            let desired_state: u8 = if self.bits % 8 != 0 && byte == n - 1 {
                let shift: u32 = (self.bits % 8) as u32;
                ((0xFFu32 << shift) & 0xFF) as u8
            } else {
                0x00
            };
            self.bytes.set(byte, desired_state);
            byte = byte + 1;
        }
        proof {
            assert(self.bytes@ =~= Seq::new(old(self).bytes().len(), |i: int| cleared_byte(old(self).bits(), i)));
            assert forall|i: int| self.bits <= i < 8 * self.bytes@.len() implies #[trigger] used(self.bytes@, i) by {
                assert(i / 8 == n - 1 && self.bits % 8 != 0 && self.bits % 8 <= i % 8) by (nonlinear_arith)
                    requires
                        n == spec_byte_size(self.bits as int),
                        self.bits <= i < 8 * n,
                ;
                lemma_pad_byte_bits(self.bits, i % 8);
            }
            assert forall|j: int| 0 <= j < 8 * self.bytes@.len() implies (#[trigger] used(self.bytes@, j) <==> (j < 0
                || j >= self.bits)) by {
                if j >= self.bits {
                    assert(used(self.bytes@, j));
                } else {
                    assert(0 <= j / 8 < n && 0 <= j % 8 < 8) by (nonlinear_arith)
                        requires
                            0 <= j < 8 * n,
                    ;
                    if self.bits % 8 != 0 && j / 8 == n - 1 {
                        assert(j % 8 < self.bits % 8) by (nonlinear_arith)
                            requires
                                n == spec_byte_size(self.bits as int),
                                self.bits % 8 != 0,
                                j / 8 == n - 1,
                                0 <= j < self.bits,
                        ;
                    }
                    lemma_byte_bits(0, 0, (j % 8) as u8, (self.bits % 8) as u32);
                }
            }
        }
    }

    /// Find the first free bit, mark it used and return its index; `None`
    /// when every byte is full.
    pub fn acquire_bit(&mut self) -> (r: Option<usize>)
        requires
            old(self).wf(),
        ensures
            final(self).wf(),
            final(self).bits() == old(self).bits(),
            acquired(old(self).bytes(), final(self).bytes(), r),
            padded(old(self).bytes(), old(self).bits() as int) ==> {
                &&& padded(final(self).bytes(), final(self).bits() as int)
                &&& r matches Some(i) ==> i < old(self).bits()
            },
    {
        let n = byte_size(self.bits);
        proof {
            assert(8 * n <= self.bits + 8) by (nonlinear_arith)
                requires
                    n == spec_byte_size(self.bits as int),
            ;
        }
        let mut byte: usize = 0;
        while byte < n
            invariant
                self == old(self),
                self.wf(),
                n == self.bytes@.len(),
                8 * n <= usize::MAX,
                byte <= n,
                forall|k: int| 0 <= k < byte ==> #[trigger] self.bytes@[k] == 0xFF,
            decreases n - byte,
        {
            let val = self.bytes[byte];
            let mut bit: u8 = 0;
            while bit < 8
                invariant
                    self == old(self),
                    self.wf(),
                    n == self.bytes@.len(),
                    8 * n <= usize::MAX,
                    byte < n,
                    val == self.bytes@[byte as int],
                    forall|k: int| 0 <= k < byte ==> #[trigger] self.bytes@[k] == 0xFF,
                    bit <= 8,
                    forall|c: int| 0 <= c < bit ==> #[trigger] bit_set(val, c),
                decreases 8 - bit,
            {
                if val & (1u8 << bit) == 0 {
                    proof {
                        assert((val & (1u8 << bit) == 0) == !((val >> bit) & 1u8 == 1u8)) by (bit_vector)
                            requires
                                bit < 8,
                        ;
                    }
                    self.bytes.set(byte, val | (1u8 << bit));
                    proof {
                        let i = byte * 8 + bit;
                        assert(i / 8 == byte && i % 8 == bit) by (nonlinear_arith)
                            requires
                                i == byte * 8 + bit,
                                bit < 8,
                        ;
                        let ob = old(self).bytes@;
                        let nb = self.bytes@;
                        if padded(ob, self.bits as int) {
                            assert(i < 8 * n) by (nonlinear_arith)
                                requires
                                    i == byte * 8 + bit,
                                    bit < 8,
                                    byte < n,
                            ;
                            if i >= self.bits {
                                assert(used(ob, i as int));
                            }
                            assert forall|j: int| self.bits <= j < 8 * nb.len() implies #[trigger] used(nb, j) by {
                                assert(used(ob, j));
                                assert(0 <= j / 8 < n && 0 <= j % 8 < 8) by (nonlinear_arith)
                                    requires
                                        0 <= j < 8 * n,
                                ;
                                if j / 8 == byte {
                                    lemma_or_keeps_set(val, 1u8 << bit, j % 8);
                                }
                            }
                        }
                    }
                    return Some(byte * 8 + bit as usize);
                }
                proof {
                    assert((val & (1u8 << bit) != 0) == ((val >> bit) & 1u8 == 1u8)) by (bit_vector)
                        requires
                            bit < 8,
                    ;
                }
                bit = bit + 1;
            }
            proof {
                assert((val >> 0u8) & 1u8 == 1u8) by { assert(bit_set(val, 0)); }
                assert((val >> 1u8) & 1u8 == 1u8) by { assert(bit_set(val, 1)); }
                assert((val >> 2u8) & 1u8 == 1u8) by { assert(bit_set(val, 2)); }
                assert((val >> 3u8) & 1u8 == 1u8) by { assert(bit_set(val, 3)); }
                assert((val >> 4u8) & 1u8 == 1u8) by { assert(bit_set(val, 4)); }
                assert((val >> 5u8) & 1u8 == 1u8) by { assert(bit_set(val, 5)); }
                assert((val >> 6u8) & 1u8 == 1u8) by { assert(bit_set(val, 6)); }
                assert((val >> 7u8) & 1u8 == 1u8) by { assert(bit_set(val, 7)); }
                assert(val == 0xFF) by (bit_vector)
                    requires
                        (val >> 0u8) & 1u8 == 1u8,
                        (val >> 1u8) & 1u8 == 1u8,
                        (val >> 2u8) & 1u8 == 1u8,
                        (val >> 3u8) & 1u8 == 1u8,
                        (val >> 4u8) & 1u8 == 1u8,
                        (val >> 5u8) & 1u8 == 1u8,
                        (val >> 6u8) & 1u8 == 1u8,
                        (val >> 7u8) & 1u8 == 1u8,
                ;
            }
            byte = byte + 1;
        }
        None
    }

    /// Mark object `index` free. Whether it was in use.
    pub fn release_bit(&mut self, index: usize) -> (r: bool)
        requires
            old(self).wf(),
            index < old(self).bits(),
        ensures
            final(self).wf(),
            final(self).bits() == old(self).bits(),
            r == used(old(self).bytes(), index as int),
            r ==> final(self).bytes() == old(self).bytes().update(
                index as int / 8,
                old(self).bytes()[index as int / 8] & !(1u8 << (index % 8) as u8),
            ),
            !r ==> final(self).bytes() == old(self).bytes(),
            padded(old(self).bytes(), old(self).bits() as int) ==> padded(final(self).bytes(), final(self).bits() as int),
    {
        proof {
            assert(index / 8 < spec_byte_size(self.bits as int)) by (nonlinear_arith)
                requires
                    index < self.bits,
            ;
        }
        let b = index / 8;
        let bit: u8 = (index % 8) as u8;
        let val = self.bytes[b];
        proof {
            assert((val & (1u8 << bit) != 0) == ((val >> bit) & 1u8 == 1u8)) by (bit_vector)
                requires
                    bit < 8,
            ;
        }
        if val & (1u8 << bit) != 0 {
            self.bytes.set(b, val & !(1u8 << bit));
            proof {
                let ob = old(self).bytes@;
                let nb = self.bytes@;
                if padded(ob, self.bits as int) {
                    assert forall|j: int| self.bits <= j < 8 * nb.len() implies #[trigger] used(nb, j) by {
                        assert(used(ob, j));
                        assert(0 <= j / 8 && 0 <= j % 8 < 8) by (nonlinear_arith)
                            requires
                                0 <= j,
                        ;
                        if j / 8 == b {
                            assert(j % 8 != bit) by (nonlinear_arith)
                                requires
                                    j / 8 == index / 8,
                                    bit == index % 8,
                                    index < j,
                            ;
                            lemma_clear_keeps_other_set(val, bit, j % 8);
                        }
                    }
                }
            }
            true
        } else {
            false
        }
    }

    /// Every object is free: the map is as `clear` leaves it.
    pub fn is_empty(&self) -> (r: bool)
        requires
            self.wf(),
        ensures
            r == forall|k: int| 0 <= k < self.bytes().len() ==> #[trigger] self.bytes()[k] == cleared_byte(self.bits(), k),
    {
        let n = byte_size(self.bits);
        let mut byte: usize = 0;
        while byte < n
            invariant
                self.wf(),
                n == self.bytes@.len(),
                byte <= n,
                forall|k: int| 0 <= k < byte ==> #[trigger] self.bytes@[k] == cleared_byte(self.bits, k),
            decreases n - byte,
        {
            let desired_state: u8 = if self.bits % 8 != 0 && byte == n - 1 {
                let shift: u32 = (self.bits % 8) as u32;
                ((0xFFu32 << shift) & 0xFF) as u8
            } else {
                0x00
            };
            assert(desired_state == cleared_byte(self.bits, byte as int));
            if self.bytes[byte] != desired_state {
                assert(self.bytes()[byte as int] != cleared_byte(self.bits(), byte as int));
                return false;
            }
            byte = byte + 1;
        }
        true
    }

    /// Every bit of every byte is set.
    pub fn is_full(&self) -> (r: bool)
        requires
            self.wf(),
        ensures
            r == forall|k: int| 0 <= k < self.bytes().len() ==> #[trigger] self.bytes()[k] == 0xFF,
    {
        let n = byte_size(self.bits);
        let mut byte: usize = 0;
        while byte < n
            invariant
                self.wf(),
                n == self.bytes@.len(),
                byte <= n,
                forall|k: int| 0 <= k < byte ==> #[trigger] self.bytes@[k] == 0xFF,
            decreases n - byte,
        {
            if self.bytes[byte] != 0xFF {
                assert(self.bytes()[byte as int] != 0xFF);
                return false;
            }
            byte = byte + 1;
        }
        true
    }

    /// The number of objects in use.
    pub fn count_full(&self) -> (r: usize)
        requires
            self.wf(),
        ensures
            r == count_used(self.bytes(), self.bits() as int, (8 * self.bytes().len()) as int),
    {
        let n = byte_size(self.bits);
        let mut count: usize = 0;
        let mut total_bit: usize = 0;
        let mut byte: usize = 0;
        proof {
            assert(8 * n <= self.bits + 8) by (nonlinear_arith)
                requires
                    n == spec_byte_size(self.bits as int),
            ;
        }
        while byte < n
            invariant
                self.wf(),
                n == self.bytes@.len(),
                8 * n <= usize::MAX,
                byte <= n,
                total_bit == 8 * byte,
                count == count_used(self.bytes@, self.bits as int, total_bit as int),
                count <= total_bit,
            decreases n - byte,
        {
            let value = self.bytes[byte];
            let mut bit: u8 = 0;
            while bit < 8
                invariant
                    byte < n,
                    n == self.bytes@.len(),
                    8 * n <= usize::MAX,
                    value == self.bytes@[byte as int],
                    bit <= 8,
                    total_bit == 8 * byte + bit,
                    count == count_used(self.bytes@, self.bits as int, total_bit as int),
                    count <= total_bit,
                decreases 8 - bit,
            {
                proof {
                    let t = total_bit as int;
                    assert(t / 8 == byte && t % 8 == bit) by (nonlinear_arith)
                        requires
                            t == 8 * byte + bit,
                            bit < 8,
                    ;
                    assert((value & (1u8 << bit) != 0) == ((value >> bit) & 1u8 == 1u8)) by (bit_vector)
                        requires
                            bit < 8,
                    ;
                }
                if value & (1u8 << bit) != 0 && total_bit < self.bits {
                    count = count + 1;
                }
                total_bit = total_bit + 1;
                bit = bit + 1;
            }
            byte = byte + 1;
        }
        count
    }
}

/// The number of set bits below `upto` that are also below `bits`.
pub open spec fn count_used(bytes: Seq<u8>, bits: int, upto: int) -> nat
    decreases upto,
{
    if upto <= 0 {
        0
    } else {
        let i = upto - 1;
        (count_used(bytes, bits, i) + (if i < bits && used(bytes, i) { 1int } else { 0int })) as nat
    }
}

/// Marking a bit used and then freeing it again leaves the map as it was.
pub proof fn law_release_undoes_acquire(bytes: Seq<u8>, i: int)
    requires
        0 <= i / 8 < bytes.len(),
        0 <= i,
        !used(bytes, i),
    ensures
        bytes.update(i / 8, bytes[i / 8] | (1u8 << (i % 8) as u8)).update(
            i / 8,
            (bytes[i / 8] | (1u8 << (i % 8) as u8)) & !(1u8 << (i % 8) as u8),
        ) == bytes,
        used(bytes.update(i / 8, bytes[i / 8] | (1u8 << (i % 8) as u8)), i),
{
    let b = bytes[i / 8];
    let s = (i % 8) as u8;
    assert(s < 8);
    assert((b | (1u8 << s)) & !(1u8 << s) == b) by (bit_vector)
        requires
            !((b >> s) & 1u8 == 1u8),
            s < 8,
    ;
    assert(((b | (1u8 << s)) >> s) & 1u8 == 1u8) by (bit_vector)
        requires
            s < 8,
    ;
    assert(bytes.update(i / 8, b | (1u8 << s)).update(i / 8, (b | (1u8 << s)) & !(1u8 << s)) =~= bytes);
}

} // verus!
