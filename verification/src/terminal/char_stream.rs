//! Assembling characters from a stream of UTF-8 bytes.

use vstd::prelude::*;

verus! {

/// How the UTF-8 sequence that starts at some byte ends.
pub enum Utf8Seq {
    /// It is whole.
    Complete,
    /// The bytes end inside it.
    Truncated,
    /// Its byte at this index (counted from the first) cannot follow the
    /// ones before it.
    Invalid(nat),
}

/// The length of the sequence a byte starts, or 0 for a byte that starts
/// none (a continuation byte, an overlong lead, or one past U+10FFFF).
pub open spec fn lead_width(b: u8) -> int {
    if b < 0x80 {
        1
    } else if 0xC2 <= b <= 0xDF {
        2
    } else if 0xE0 <= b <= 0xEF {
        3
    } else if 0xF0 <= b <= 0xF4 {
        4
    } else {
        0
    }
}

/// Byte `i` of a sequence led by `lead` may be `b`: the second byte's range
/// rules out overlong forms, surrogates and values past U+10FFFF.
pub open spec fn cont_ok(lead: u8, i: int, b: u8) -> bool {
    if i == 1 && lead == 0xE0 {
        0xA0 <= b <= 0xBF
    } else if i == 1 && lead == 0xED {
        0x80 <= b <= 0x9F
    } else if i == 1 && lead == 0xF0 {
        0x90 <= b <= 0xBF
    } else if i == 1 && lead == 0xF4 {
        0x80 <= b <= 0x8F
    } else {
        0x80 <= b <= 0xBF
    }
}

/// The sequence of width `w` at `pos`, checked from its byte `i` on.
pub open spec fn scan_seq(s: Seq<u8>, pos: int, w: int, i: int) -> Utf8Seq
    decreases w - i,
{
    if i >= w {
        Utf8Seq::Complete
    } else if pos + i >= s.len() {
        Utf8Seq::Truncated
    } else if !cont_ok(s[pos], i, s[pos + i]) {
        Utf8Seq::Invalid(i as nat)
    } else {
        scan_seq(s, pos, w, i + 1)
    }
}

/// Whether the bytes of `s` from `pos` are UTF-8: `Ok`, or the error with
/// the length of the invalid sequence found, `None` when the bytes end
/// inside a sequence.
pub open spec fn utf8_check(s: Seq<u8>, pos: int) -> Result<(), Option<nat>>
    decreases s.len() - pos,
{
    if pos < 0 || pos >= s.len() {
        Ok(())
    } else {
        let w = lead_width(s[pos]);
        if w == 0 {
            Err(Some(1))
        } else {
            match scan_seq(s, pos, w, 1) {
                Utf8Seq::Complete => if pos + w <= s.len() {
                    utf8_check(s, pos + w)
                } else {
                    Ok(())
                },
                Utf8Seq::Truncated => Err(None),
                Utf8Seq::Invalid(n) => Err(Some(n)),
            }
        }
    }
}

/// The code point of the sequence at `pos`.
pub open spec fn seq_value(s: Seq<u8>, pos: int) -> int {
    let w = lead_width(s[pos]);
    if w == 1 {
        s[pos] as int
    } else if w == 2 {
        (s[pos] - 0xC0) * 64 + (s[pos + 1] - 0x80)
    } else if w == 3 {
        (s[pos] - 0xE0) * 4096 + (s[pos + 1] - 0x80) * 64 + (s[pos + 2] - 0x80)
    } else {
        (s[pos] - 0xF0) * 262144 + (s[pos + 1] - 0x80) * 4096 + (s[pos + 2] - 0x80) * 64 + (s[pos + 3] - 0x80)
    }
}

/// A code point that is a `char`: not a surrogate.
pub open spec fn is_scalar_value(v: int) -> bool {
    0 <= v < 0xD800 || 0xE000 <= v <= 0x10FFFF
}

/// `char::from_u32`: the `char` of a scalar value, `None` for any other
/// number.
#[verifier::external_body]
fn char_from_u32(v: u32) -> (r: Option<char>)
    ensures
        r == if is_scalar_value(v as int) {
            Some(v as char)
        } else {
            None
        },
{
    char::from_u32(v)
}

/// The sequence at `pos` of a byte string that is UTF-8 from `pos` on.
fn check_seq(s: &[u8], pos: usize) -> (r: Result<usize, Option<usize>>)
    requires
        pos < s@.len(),
    ensures
        match r {
            Ok(w) => w == lead_width(s@[pos as int]) && w > 0 && scan_seq(s@, pos as int, w as int, 1)
                is Complete,
            Err(None) => lead_width(s@[pos as int]) > 0 && scan_seq(s@, pos as int, lead_width(s@[pos as int]), 1)
                is Truncated,
            Err(Some(n)) => (lead_width(s@[pos as int]) == 0 && n == 1) || (lead_width(s@[pos as int]) > 0
                && scan_seq(s@, pos as int, lead_width(s@[pos as int]), 1) == Utf8Seq::Invalid(n as nat)),
        },
{
    let lead = s[pos];
    let w: usize = if lead < 0x80 {
        1
    } else if 0xC2 <= lead && lead <= 0xDF {
        2
    } else if 0xE0 <= lead && lead <= 0xEF {
        3
    } else if 0xF0 <= lead && lead <= 0xF4 {
        4
    } else {
        0
    };
    if w == 0 {
        return Err(Some(1));
    }
    let mut i: usize = 1;
    while i < w
        invariant
            1 <= i <= w <= 4,
            w == lead_width(lead),
            lead == s@[pos as int],
            pos < s@.len(),
            scan_seq(s@, pos as int, w as int, 1) == scan_seq(s@, pos as int, w as int, i as int),
        decreases w - i,
    {
        if i >= s.len() - pos {
            return Err(None);
        }
        let b = s[pos + i];
        let ok = if i == 1 && lead == 0xE0 {
            0xA0 <= b && b <= 0xBF
        } else if i == 1 && lead == 0xED {
            0x80 <= b && b <= 0x9F
        } else if i == 1 && lead == 0xF0 {
            0x90 <= b && b <= 0xBF
        } else if i == 1 && lead == 0xF4 {
            0x80 <= b && b <= 0x8F
        } else {
            0x80 <= b && b <= 0xBF
        };
        if !ok {
            return Err(Some(i));
        }
        i = i + 1;
    }
    Ok(w)
}

/// What `core::str::from_utf8` reports of `s`: `Ok` when it is UTF-8, else
/// the length of the invalid sequence, `None` when `s` ends inside one.
fn check_utf8(s: &[u8]) -> (r: Result<(), Option<usize>>)
    ensures
        match utf8_check(s@, 0) {
            Ok(()) => r is Ok,
            Err(None) => r == Err::<(), Option<usize>>(None),
            Err(Some(n)) => r matches Err(Some(m)) && m == n,
        },
{
    let mut pos: usize = 0;
    while pos < s.len()
        invariant
            pos <= s@.len(),
            utf8_check(s@, 0) == utf8_check(s@, pos as int),
        decreases s@.len() - pos,
    {
        match check_seq(s, pos) {
            Ok(w) => {
                proof {
                    reveal_with_fuel(scan_seq, 4);
                }
                if w > s.len() - pos {
                    return Ok(());
                }
                pos = pos + w;
            },
            Err(e) => {
                return Err(e);
            },
        }
    }
    Ok(())
}

/// The first character of UTF-8 bytes.
fn first_char(s: &[u8]) -> (c: char)
    requires
        s@.len() > 0,
        utf8_check(s@, 0) is Ok,
    ensures
        c as int == seq_value(s@, 0),
        c == seq_value(s@, 0) as char,
{
    proof {
        reveal_with_fuel(scan_seq, 4);
    }
    let b0 = s[0] as u32;
    let v: u32 = if b0 < 0x80 {
        b0
    } else if b0 <= 0xDF {
        (b0 - 0xC0) * 64 + (s[1] as u32 - 0x80)
    } else if b0 <= 0xEF {
        (b0 - 0xE0) * 4096 + (s[1] as u32 - 0x80) * 64 + (s[2] as u32 - 0x80)
    } else {
        (b0 - 0xF0) * 262144 + (s[1] as u32 - 0x80) * 4096 + (s[2] as u32 - 0x80) * 64 + (s[3] as u32 - 0x80)
    };
    match char_from_u32(v) {
        Some(c) => c,
        None => {
            // Every complete sequence encodes a scalar value.
            proof {
                assert(false);
            }
            ' '
        },
    }
}

/// Bytes that hold the start of one character and nothing else: its lead
/// byte and fewer continuation bytes than it needs, each allowed.
pub open spec fn pending(s: Seq<u8>) -> bool {
    s.len() == 0 || (s.len() <= 3 && lead_width(s[0]) > s.len() && scan_seq(s, 0, lead_width(s[0]), 1)
        is Truncated)
}

/// An invalid sequence found from `pos` lies inside the bytes.
proof fn lemma_check_err_len(s: Seq<u8>, pos: int)
    requires
        0 <= pos,
        utf8_check(s, pos) matches Err(Some(n)),
    ensures
        utf8_check(s, pos) matches Err(Some(n)) && 1 <= n <= s.len() - pos,
    decreases s.len() - pos,
{
    reveal_with_fuel(scan_seq, 4);
    let w = lead_width(s[pos]);
    if w != 0 {
        if scan_seq(s, pos, w, 1) is Complete && pos + w <= s.len() {
            lemma_check_err_len(s, pos + w);
        }
    }
}

/// One more byte after pending bytes completes the character, leaves it
/// pending, or makes the pending bytes (and only those) an invalid sequence.
pub proof fn lemma_pending_push(s: Seq<u8>, b: u8)
    requires
        pending(s),
    ensures
        match utf8_check(s.push(b), 0) {
            Ok(()) => true,
            Err(None) => pending(s.push(b)),
            Err(Some(n)) => n >= 1 && n + 1 >= s.push(b).len(),
        },
{
    reveal_with_fuel(scan_seq, 4);
    reveal_with_fuel(utf8_check, 2);
    let t = s.push(b);
    if s.len() > 0 {
        assert(t[0] == s[0]);
        assert(t[1] == s[1] || s.len() < 2);
        assert(t[2] == s[2] || s.len() < 3);
    }
}

/// Bytes decoded one character at a time as they arrive.
pub struct CharStream {
    char_buf: [u8; 4],
    char_index: u8,
}

impl CharStream {
    /// The four bytes of the buffer.
    pub closed spec fn buf(&self) -> Seq<u8> {
        self.char_buf@
    }

    /// How many bytes of the buffer are waiting.
    pub closed spec fn len(&self) -> int {
        self.char_index as int
    }

    /// The waiting bytes.
    pub open spec fn bytes(&self) -> Seq<u8> {
        self.buf().subrange(0, self.len())
    }

    pub open spec fn wf(&self) -> bool {
        self.buf().len() == 4 && 0 <= self.len() <= 4
    }

    /// An empty stream.
    pub fn new() -> (r: CharStream)
        ensures
            r.wf(),
            r.len() == 0,
            r.buf() == seq![0u8, 0u8, 0u8, 0u8],
    {
        let r = CharStream { char_buf: [0; 4], char_index: 0 };
        assert(r.char_buf@ =~= seq![0u8, 0u8, 0u8, 0u8]);
        r
    }

    /// Add a byte; call `consume` in a loop after this.
    pub fn push(&mut self, byte: u8)
        requires
            old(self).wf(),
            old(self).len() < 4,
        ensures
            final(self).wf(),
            final(self).len() == old(self).len() + 1,
            final(self).buf() == old(self).buf().update(old(self).len(), byte),
    {
        let i = self.char_index as usize;
        self.char_buf[i] = byte;
        self.char_index = self.char_index + 1;
    }

    /// Take the next character out of the waiting bytes: the first one
    /// when they are UTF-8 (dropping the rest), nothing when they end inside
    /// a character, and U+FFFD for an invalid sequence, which is dropped.
    pub fn consume(&mut self) -> (r: Option<char>)
        requires
            old(self).wf(),
        ensures
            final(self).wf(),
            old(self).len() == 0 ==> r is None && *final(self) == *old(self),
            old(self).len() > 0 ==> match utf8_check(old(self).bytes(), 0) {
                Ok(()) => r matches Some(c) && c as int == seq_value(old(self).bytes(), 0) && c == seq_value(
                    old(self).bytes(),
                    0,
                ) as char && final(self).len()
                    == 0 && final(self).buf() == old(self).buf(),
                Err(None) => r is None && *final(self) == *old(self),
                Err(Some(n)) => r == Some('\u{fffd}') && 1 <= n <= old(self).len() && final(self).len() == old(self).len() - n
                    && final(self).buf() == old(self).buf().subrange(n as int, 4) + old(self).buf().subrange(
                    4 - n,
                    4,
                ),
            },
    {
        if self.char_index == 0 {
            return None;
        }
        let n = self.char_index as usize;
        let utf8 = slice_prefix(&self.char_buf, n);
        match check_utf8(utf8) {
            Ok(()) => {
                let c = first_char(utf8);
                self.char_index = 0;
                Some(c)
            },
            Err(None) => {
                // Wait for more bytes.
                None
            },
            Err(Some(invalid_end)) => {
                proof {
                    lemma_check_err_len(utf8@, 0);
                }
                // Move what follows the invalid sequence to the front.
                let ghost b0 = self.char_buf@;
                let mut i: usize = invalid_end;
                while i < 4
                    invariant
                        1 <= invalid_end <= i <= 4,
                        invalid_end <= n <= 4,
                        self.char_index as int == n,
                        self.char_buf@.len() == 4,
                        forall|k: int|
                            0 <= k < 4 ==> #[trigger] self.char_buf@[k] == if k < i - invalid_end {
                                b0[k + invalid_end]
                            } else {
                                b0[k]
                            },
                    decreases 4 - i,
                {
                    let v = self.char_buf[i];
                    self.char_buf[i - invalid_end] = v;
                    i = i + 1;
                }
                assert(self.char_buf@ =~= b0.subrange(invalid_end as int, 4) + b0.subrange(4 - invalid_end, 4));
                self.char_index = self.char_index - invalid_end as u8;
                Some('\u{fffd}')
            },
        }
    }

    /// Drop the waiting bytes.
    pub fn reset(&mut self)
        ensures
            final(self).wf(),
            final(self).len() == 0,
            final(self).buf() == seq![0u8, 0u8, 0u8, 0u8],
    {
        *self = CharStream::new();
    }
}

/// The first `n` bytes of a buffer.
fn slice_prefix(b: &[u8; 4], n: usize) -> (r: &[u8])
    requires
        n <= 4,
    ensures
        r@ == b@.subrange(0, n as int),
{
    let s: &[u8] = b.as_slice();
    let (head, _) = s.split_at(n);
    head
}

/// The UTF-8 encoding of the scalar value `v`.
pub open spec fn utf8_encode(v: int) -> Seq<u8> {
    if v < 0x80 {
        seq![v as u8]
    } else if v < 0x800 {
        seq![(0xC0 + v / 64) as u8, (0x80 + v % 64) as u8]
    } else if v < 0x10000 {
        seq![(0xE0 + v / 4096) as u8, (0x80 + (v / 64) % 64) as u8, (0x80 + v % 64) as u8]
    } else {
        seq![
            (0xF0 + v / 262144) as u8,
            (0x80 + (v / 4096) % 64) as u8,
            (0x80 + (v / 64) % 64) as u8,
            (0x80 + v % 64) as u8,
        ]
    }
}

/// The UTF-8 encoding of every character is UTF-8 and decodes to that
/// character, and each of its proper prefixes is the pending start of it:
/// fed byte by byte to a stream, a character comes out whole when its last
/// byte arrives and not before.
pub proof fn law_utf8_roundtrip(v: int)
    requires
        is_scalar_value(v),
    ensures
        utf8_check(utf8_encode(v), 0) == Ok::<(), Option<nat>>(()),
        seq_value(utf8_encode(v), 0) == v,
        forall|k: int|
            1 <= k < utf8_encode(v).len() ==> utf8_check(#[trigger] utf8_encode(v).take(k), 0) == Err::<(), Option<nat>>(
                None,
            ) && pending(utf8_encode(v).take(k)),
{
    reveal_with_fuel(scan_seq, 4);
    reveal_with_fuel(utf8_check, 2);
    let e = utf8_encode(v);
    assert forall|k: int| 1 <= k < e.len() implies utf8_check(#[trigger] e.take(k), 0) == Err::<(), Option<nat>>(None)
        && pending(e.take(k)) by {
        let p = e.take(k);
        assert(p[0] == e[0]);
        if k >= 2 {
            assert(p[1] == e[1]);
        }
        if k >= 3 {
            assert(p[2] == e[2]);
        }
    }
}

/// What consuming the waiting bytes `b` until nothing more comes out gives:
/// the characters, in order, and the bytes left waiting.
pub open spec fn drain(b: Seq<u8>) -> (Seq<char>, Seq<u8>)
    decreases b.len(),
{
    if b.len() == 0 {
        (Seq::empty(), b)
    } else {
        match utf8_check(b, 0) {
            Ok(()) => (seq![seq_value(b, 0) as char], Seq::empty()),
            Err(None) => (Seq::empty(), b),
            Err(Some(n)) => if 1 <= n <= b.len() {
                let d = drain(b.skip(n as int));
                (seq!['\u{fffd}'] + d.0, d.1)
            } else {
                (Seq::empty(), b)
            },
        }
    }
}

} // verus!
