//! LZW code table with dynamic code width.

use vstd::prelude::*;
use vstd::arithmetic::power2::pow2;

verus! {

/// The initial code width for LZW (9 bits, since 256 entries are used).
pub const INITIAL_CODE_WIDTH: u8 = 9;

/// The maximum code width.
pub const MAX_CODE_WIDTH: u8 = 16;

/// The abstract state of an [`LzwTable`].
pub struct TableState {
    /// Next code to hand out.
    pub next_code: u16,
    /// Current code width in bits.
    pub code_width: u8,
    /// Largest code that may be handed out.
    pub max_code: u16,
}

/// An LZW code table that tracks codes and manages code width.
#[derive(Debug)]
pub struct LzwTable {
    /// Current next code to assign.
    next_code: u16,
    /// Current bit width for codes.
    code_width: u8,
    /// Maximum code value before reset.
    max_code: u16,
}

impl View for LzwTable {
    type V = TableState;

    closed spec fn view(&self) -> TableState {
        TableState { next_code: self.next_code, code_width: self.code_width, max_code: self.max_code }
    }
}

/// The width a table moves to after handing out a code, given the width before
/// and the next code after the hand-out: once every code of the current width
/// has been handed out, the width grows by one bit, up to the maximum width.
pub open spec fn grown_width(width: u8, next_after: int) -> int {
    if width < MAX_CODE_WIDTH && next_after >= pow2(width as nat) {
        width + 1
    } else {
        width as int
    }
}

/// Whether the table cannot hand out any more codes.
pub open spec fn state_full(s: TableState) -> bool {
    s.next_code > s.max_code
}

/// Whether handing out a code from state `s` keeps the 16-bit counter in
/// range: the counter can only move past the code it hands out while that
/// code is below 65535.
pub open spec fn can_alloc(s: TableState) -> bool {
    state_full(s) || s.next_code < 65535
}

/// The width of a table that started at the initial width: at least 9 and at
/// most 16 bits, wide enough for the next code, and at most one bit wider than
/// the codes handed out so far need.
pub open spec fn tight(s: TableState) -> bool {
    &&& INITIAL_CODE_WIDTH <= s.code_width <= MAX_CODE_WIDTH
    &&& s.next_code <= pow2(s.code_width as nat)
    &&& (s.code_width == INITIAL_CODE_WIDTH || s.next_code >= pow2((s.code_width - 1) as nat))
}

impl Clone for LzwTable {
    fn clone(&self) -> (r: Self)
        ensures
            r@ == self@,
            self.wf() ==> r.wf(),
    {
        LzwTable { next_code: self.next_code, code_width: self.code_width, max_code: self.max_code }
    }
}

impl LzwTable {
    /// Well-formedness: the next code fits in the current width, and the width
    /// is never larger than needed beyond the starting widths.
    pub closed spec fn wf(&self) -> bool {
        &&& self.code_width <= MAX_CODE_WIDTH
        &&& self.next_code <= pow2(self.code_width as nat)
        &&& (self.code_width <= 10 || self.next_code >= pow2((self.code_width - 1) as nat))
    }

    /// Create a new LZW table initialized after the 256 literal entries.
    ///
    /// Optionally reserves codes for clear (256) and end-of-information (257).
    pub fn new(reserve_special: bool) -> (t: Self)
        ensures
            t.wf(),
            t@.next_code == (if reserve_special { 258u16 } else { 256u16 }),
            t@.code_width == (if reserve_special { 10u8 } else { INITIAL_CODE_WIDTH }),
            t@.max_code == 65535,
            !reserve_special ==> tight(t@),
    {
        proof {
            vstd::arithmetic::power2::lemma2_to64();
        }
        let first_code: u16 = if reserve_special { 258 } else { 256 };
        LzwTable {
            next_code: first_code,
            code_width: if reserve_special { 10 } else { INITIAL_CODE_WIDTH },
            max_code: 65535,
        }
    }

    /// Create with a custom max code width.
    pub fn with_max_width(max_width: u8) -> (t: Self)
        requires
            max_width <= MAX_CODE_WIDTH,
        ensures
            t.wf(),
            t@.next_code == 256,
            t@.code_width == INITIAL_CODE_WIDTH,
            t@.max_code == pow2(max_width as nat) - 1,
            tight(t@),
    {
        proof {
            vstd::arithmetic::power2::lemma2_to64();
            if max_width < MAX_CODE_WIDTH {
                lemma_one_shl(max_width);
            }
        }
        let max_code: u16 = if max_width < MAX_CODE_WIDTH {
            (1u16 << max_width) - 1
        } else {
            u16::MAX
        };
        LzwTable { next_code: 256, code_width: INITIAL_CODE_WIDTH, max_code }
    }

    /// Get the next available code and advance the counter.
    ///
    /// Returns `None` if the table is full.
    pub fn alloc_code(&mut self) -> (r: Option<u16>)
        requires
            old(self).wf(),
            can_alloc(old(self)@),
        ensures
            final(self).wf(),
            tight(old(self)@) ==> tight(final(self)@),
            state_full(old(self)@) ==> r is None && final(self)@ == old(self)@,
            !state_full(old(self)@) ==> {
                &&& r == Some(old(self)@.next_code)
                &&& final(self)@.next_code == old(self)@.next_code + 1
                &&& final(self)@.max_code == old(self)@.max_code
                &&& final(self)@.code_width == grown_width(
                    old(self)@.code_width,
                    old(self)@.next_code + 1,
                )
            },
    {
        if self.next_code > self.max_code {
            return None;
        }
        proof {
            vstd::arithmetic::power2::lemma2_to64();
            if self.code_width < MAX_CODE_WIDTH {
                lemma_one_shl(self.code_width);
            }
        }
        let code = self.next_code;
        self.next_code += 1;
        // Check if we need to increase code width
        if self.code_width < MAX_CODE_WIDTH && self.next_code >= (1u16 << self.code_width) {
            self.code_width = self.code_width + 1;
        }
        Some(code)
    }

    /// Peek at the next code without allocating.
    pub fn peek_code(&self) -> (r: u16)
        ensures
            r == self@.next_code,
    {
        self.next_code
    }

    /// Current code width in bits.
    pub fn code_width(&self) -> (r: u8)
        ensures
            r == self@.code_width,
    {
        self.code_width
    }

    /// Number of entries allocated so far.
    pub fn len(&self) -> (r: usize)
        ensures
            r == self@.next_code,
    {
        self.next_code as usize
    }

    /// Whether the table is empty (always false: it has 256 initial entries).
    pub fn is_empty(&self) -> (r: bool)
        ensures
            r == false,
    {
        false
    }

    /// Whether the table is full.
    pub fn is_full(&self) -> (r: bool)
        ensures
            r == state_full(self@),
    {
        self.next_code > self.max_code
    }

    /// Reset the table.
    pub fn reset(&mut self)
        ensures
            final(self).wf(),
            final(self)@.next_code == 256,
            final(self)@.code_width == INITIAL_CODE_WIDTH,
            final(self)@.max_code == old(self)@.max_code,
            tight(final(self)@),
    {
        proof {
            vstd::arithmetic::power2::lemma2_to64();
        }
        self.next_code = 256;
        self.code_width = INITIAL_CODE_WIDTH;
    }

    /// Maximum code value.
    pub fn max_code(&self) -> (r: u16)
        ensures
            r == self@.max_code,
    {
        self.max_code
    }
}

/// For a width below 16, shifting one left by it gives two to that power.
proof fn lemma_one_shl(w: u8)
    requires
        w < 16,
    ensures
        (1u16 << w) as int == pow2(w as nat),
{
    let w16 = w as u16;
    assert((1u16 << w) == (1u16 << w16)) by (bit_vector)
        requires
            w16 == w,
    ;
    vstd::bits::lemma_u16_pow2_no_overflow(w as nat);
    vstd::bits::lemma_u16_shl_is_mul(1u16, w16);
}

} // verus!
