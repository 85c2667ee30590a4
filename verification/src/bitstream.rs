//! RBSP extraction and the bit reader shared by the H.264 and H.265 header
//! parsers.
//!
//! The specifications describe a header as a chain of reads on a [`Cursor`]
//! whose error is sticky: once a read has failed, every later read leaves the
//! cursor as it is, so a whole header is one straight-line definition.
use vstd::prelude::*;
use vstd::string::StringExecFns;

verus! {

/// Why a bitstream was rejected.
#[derive(Debug)]
pub enum H264Error {
    /// The bitstream ended early.
    Eof,
    /// A feature outside the supported subset.
    Unsupported(String),
    /// A value that no stream may hold.
    Malformed(String),
}

/// An [`H264Error`] with its message as characters.
pub enum ErrorView {
    Eof,
    Unsupported(Seq<char>),
    Malformed(Seq<char>),
}

impl ErrorView {
    /// The message a user sees.
    pub open spec fn text(self) -> Seq<char> {
        match self {
            ErrorView::Eof => "bitstream ended early"@,
            ErrorView::Unsupported(m) => "unsupported: "@ + m,
            ErrorView::Malformed(m) => "malformed: "@ + m,
        }
    }
}

impl View for H264Error {
    type V = ErrorView;

    open spec fn view(&self) -> ErrorView {
        match *self {
            H264Error::Eof => ErrorView::Eof,
            H264Error::Unsupported(s) => ErrorView::Unsupported(s@),
            H264Error::Malformed(s) => ErrorView::Malformed(s@),
        }
    }
}

impl H264Error {
    /// The message a user sees.
    pub fn message(&self) -> (s: String)
        ensures
            s@ == self@.text(),
    {
        match self {
            H264Error::Eof => String::from_str("bitstream ended early"),
            H264Error::Unsupported(m) => {
                let mut s = String::from_str("unsupported: ");
                s.append(m.as_str());
                s
            },
            H264Error::Malformed(m) => {
                let mut s = String::from_str("malformed: ");
                s.append(m.as_str());
                s
            },
        }
    }
}

/// An `Unsupported` error with a fixed message.
pub fn unsupported(message: &str) -> (e: H264Error)
    ensures
        e@ == ErrorView::Unsupported(message@),
{
    H264Error::Unsupported(String::from_str(message))
}

/// A `Malformed` error with a fixed message.
pub fn malformed(message: &str) -> (e: H264Error)
    ensures
        e@ == ErrorView::Malformed(message@),
{
    H264Error::Malformed(String::from_str(message))
}

/// Bit `i` of `data`, most significant bit of each byte first.
pub open spec fn bit_at(data: Seq<u8>, i: int) -> nat {
    ((data[i / 8] >> ((7 - i % 8) as u8)) & 1) as nat
}

/// The unsigned big-endian value of the `n` bits that start at `pos`.
pub open spec fn bits_value(data: Seq<u8>, pos: int, n: nat) -> nat
    decreases n,
{
    if n == 0 {
        0
    } else {
        2 * bits_value(data, pos, (n - 1) as nat) + bit_at(data, pos + n - 1)
    }
}

/// Number of zero bits from `pos` to the first one bit, or to the end of the
/// data.
pub open spec fn zero_run(data: Seq<u8>, pos: int) -> nat
    decreases 8 * data.len() - pos,
{
    if pos >= 8 * data.len() || bit_at(data, pos) != 0 {
        0
    } else {
        1 + zero_run(data, pos + 1)
    }
}

/// The signed value that an unsigned Exp-Golomb code number stands for:
/// 0, 1, -1, 2, -2, ...
pub open spec fn signed_of_code(k: nat) -> int {
    if k % 2 == 0 {
        -(k as int / 2)
    } else {
        (k as int + 1) / 2
    }
}

/// A bit is zero or one.
pub proof fn lemma_bit_at_most_one(data: Seq<u8>, i: int)
    ensures
        bit_at(data, i) <= 1,
{
    let b = data[i / 8];
    let s = (7 - i % 8) as u8;
    assert((b >> s) & 1 <= 1) by (bit_vector);
}

/// Shifting one bit into a value whose high bits were dropped.
proof fn lemma_shift_in(whole: nat, b: nat)
    ensures
        (2 * (whole % 0x1_0000_0000) + b) % 0x1_0000_0000 == (2 * whole + b) % 0x1_0000_0000,
{
}

/// An `n`-bit value is below `2^n`.
pub proof fn lemma_bits_value_bound(data: Seq<u8>, pos: int, n: nat)
    ensures
        bits_value(data, pos, n) < vstd::arithmetic::power2::pow2(n),
    decreases n,
{
    if n == 0 {
        vstd::arithmetic::power2::lemma2_to64();
    } else {
        lemma_bits_value_bound(data, pos, (n - 1) as nat);
        lemma_bit_at_most_one(data, pos + n - 1);
        vstd::arithmetic::power2::lemma_pow2_unfold(n);
    }
}

/// Splits the first bit off an `n + 1`-bit value.
proof fn lemma_bits_value_first(data: Seq<u8>, pos: int, n: nat)
    ensures
        bits_value(data, pos, n + 1) == bit_at(data, pos) * vstd::arithmetic::power2::pow2(n)
            + bits_value(data, pos + 1, n),
    decreases n,
{
    vstd::arithmetic::power2::lemma2_to64();
    if n == 0 {
        reveal_with_fuel(bits_value, 2);
    } else {
        let b = bit_at(data, pos) as int;
        let p = vstd::arithmetic::power2::pow2((n - 1) as nat) as int;
        lemma_bits_value_first(data, pos, (n - 1) as nat);
        vstd::arithmetic::power2::lemma_pow2_unfold(n);
        assert(b * (2 * p) == 2 * (b * p)) by (nonlinear_arith);
    }
}

/// The Exp-Golomb code number of a signed value.
pub open spec fn code_of_signed(v: int) -> nat {
    if v > 0 {
        (2 * v - 1) as nat
    } else {
        (-2 * v) as nat
    }
}

/// Exp-Golomb coding: where `z` zero bits and then `v + 1` in `z + 1` bits
/// stand at the cursor, `ue` reads `v` and stops behind the code.
pub proof fn ue_reads_exp_golomb_code(c: Cursor, z: nat, v: nat)
    requires
        c.err is None,
        z <= 31,
        c.pos + 2 * z + 1 <= c.total(),
        zero_run(c.data, c.pos) == z,
        bits_value(c.data, c.pos + z, z + 1) == v + 1,
    ensures
        c.ue() == (v, Cursor { pos: c.pos + 2 * z + 1, ..c }),
{
    reveal(Cursor::ue);
    reveal(Cursor::u);
    lemma_zero_run_end(c.data, c.pos);
    lemma_bit_at_most_one(c.data, c.pos + z);
    lemma_bits_value_first(c.data, c.pos + z, z);
    lemma_bits_value_bound(c.data, c.pos + z + 1, z);
    vstd::bits::lemma_u32_pow2_no_overflow(z);
    let p = vstd::arithmetic::power2::pow2(z) as int;
    assert(1 * p == p);
}

/// A zero run that ends inside the data ends at a one bit.
proof fn lemma_zero_run_end(data: Seq<u8>, pos: int)
    requires
        pos + zero_run(data, pos) < 8 * data.len(),
    ensures
        bit_at(data, pos + zero_run(data, pos)) != 0,
    decreases 8 * data.len() - pos,
{
    if bit_at(data, pos) == 0 {
        lemma_zero_run_end(data, pos + 1);
    }
}

/// The signed Exp-Golomb mapping is one-to-one: each value is read back from
/// its code number, and each code number stands for one value.
pub proof fn signed_codes_are_one_to_one(v: int, k: nat)
    ensures
        signed_of_code(code_of_signed(v)) == v,
        code_of_signed(signed_of_code(k)) == k,
{
}

/// A position in a bitstream, with the first error that occurred before it.
#[verifier::ext_equal]
pub struct Cursor {
    pub data: Seq<u8>,
    pub pos: int,
    pub err: Option<ErrorView>,
}

impl Cursor {
    /// The start of `data`.
    pub open spec fn start(data: Seq<u8>) -> Cursor {
        Cursor { data, pos: 0, err: None }
    }

    /// Number of bits in the data.
    pub open spec fn total(self) -> int {
        8 * self.data.len() as int
    }

    /// This cursor with error `e`, unless it holds one already.
    pub open spec fn fail(self, e: ErrorView) -> Cursor {
        if self.err is None {
            Cursor { err: Some(e), ..self }
        } else {
            self
        }
    }

    /// This cursor, failed with `e` where `cond` holds.
    pub open spec fn reject_if(self, cond: bool, e: ErrorView) -> Cursor {
        if cond {
            self.fail(e)
        } else {
            self
        }
    }

    /// Reads `n` bits as an unsigned value, of which 32 bits are kept.
    #[verifier::opaque]
    pub open spec fn u(self, n: nat) -> (nat, Cursor) {
        if self.err is Some {
            (0, self)
        } else if self.pos + n <= self.total() {
            (
                bits_value(self.data, self.pos, n) % 0x1_0000_0000,
                Cursor { pos: self.pos + n, ..self },
            )
        } else {
            (0, Cursor { pos: self.total(), err: Some(ErrorView::Eof), ..self })
        }
    }

    /// Reads one bit.
    pub open spec fn flag(self) -> (bool, Cursor) {
        let (v, c) = self.u(1);
        (v == 1, c)
    }

    /// Reads an unsigned Exp-Golomb code: `z` zero bits, a one bit, and a
    /// `z`-bit remainder `r` stand for `2^z - 1 + r`.
    #[verifier::opaque]
    pub open spec fn ue(self) -> (nat, Cursor) {
        let z = zero_run(self.data, self.pos);
        if self.err is Some {
            (0, self)
        } else if z > 31 {
            (0, Cursor { pos: self.pos + 32, ..self }.fail(
                ErrorView::Malformed("ue > 31 leading zeros"@),
            ))
        } else if self.pos + z >= self.total() {
            (0, Cursor { pos: self.total(), ..self }.fail(ErrorView::Eof))
        } else {
            let (r, c) = Cursor { pos: self.pos + z + 1, ..self }.u(z);
            ((vstd::arithmetic::power2::pow2(z) - 1 + r) as nat, c)
        }
    }

    /// Whether a set bit lies past the cursor.
    pub open spec fn more_rbsp_data(self) -> bool {
        exists|i: int| self.pos < i < self.total() && #[trigger] bit_at(self.data, i) == 1
    }

    /// An Exp-Golomb code number fits 32 bits.
    pub proof fn lemma_ue_bound(self)
        ensures
            self.ue().0 < 0xffff_ffff,
    {
        reveal(Cursor::ue);
        reveal(Cursor::u);
        let z = zero_run(self.data, self.pos);
        if z <= 31 {
            lemma_bits_value_bound(self.data, self.pos + z + 1, z);
            vstd::arithmetic::power2::lemma2_to64();
            if z < 31 {
                vstd::arithmetic::power2::lemma_pow2_strictly_increases(z, 31);
            }
        }
    }

    /// Reads a signed Exp-Golomb code.
    pub open spec fn se(self) -> (int, Cursor) {
        let (k, c) = self.ue();
        (signed_of_code(k), c)
    }
}

/// A failed cursor does not move.
pub broadcast proof fn lemma_u_sticky(c: Cursor, n: nat)
    requires
        c.err is Some,
    ensures
        #[trigger] c.u(n) == (0nat, c),
{
    reveal(Cursor::u);
}

/// A failed cursor does not move.
pub broadcast proof fn lemma_ue_sticky(c: Cursor)
    requires
        c.err is Some,
    ensures
        #[trigger] c.ue() == (0nat, c),
{
    reveal(Cursor::ue);
}

/// A code that was read takes at least one bit, and all of them lie in the
/// data.
pub proof fn lemma_ue_progress(c: Cursor)
    requires
        c.err is None,
        c.ue().1.err is None,
    ensures
        c.pos < c.ue().1.pos <= c.total(),
        c.ue().1.data == c.data,
{
    reveal(Cursor::ue);
    reveal(Cursor::u);
}

/// A zero run lies in the data.
proof fn lemma_zero_run_bound(data: Seq<u8>, pos: int)
    requires
        pos <= 8 * data.len(),
    ensures
        pos + zero_run(data, pos) <= 8 * data.len(),
    decreases 8 * data.len() - pos,
{
    if pos < 8 * data.len() && bit_at(data, pos) == 0 {
        lemma_zero_run_bound(data, pos + 1);
    }
}

/// Reading moves the cursor forward inside the data, or not at all.
pub proof fn lemma_reads_move_forward()
    ensures
        forall|c: Cursor, n: nat|
            c.pos <= c.total() ==> c.pos <= (#[trigger] c.u(n)).1.pos <= c.total() && c.u(n).1.data
                == c.data,
        forall|c: Cursor|
            c.pos <= c.total() ==> c.pos <= (#[trigger] c.ue()).1.pos <= c.total()
                && c.ue().1.data == c.data,
{
    reveal(Cursor::u);
    reveal(Cursor::ue);
    assert forall|c: Cursor| c.pos <= c.total() implies c.pos <= (#[trigger] c.ue()).1.pos
        <= c.total() && c.ue().1.data == c.data by {
        lemma_zero_run_bound(c.data, c.pos);
    }
}

/// Reads on a failed cursor.
pub broadcast group group_sticky {
    lemma_u_sticky,
    lemma_ue_sticky,
}

/// An `n`-bit field reads below `2^n`.
pub proof fn lemma_u_bound(n: nat)
    ensures
        forall|c: Cursor| #![trigger c.u(n)] c.u(n).0 < vstd::arithmetic::power2::pow2(n),
        n == 3 ==> vstd::arithmetic::power2::pow2(n) == 8,
        n == 4 ==> vstd::arithmetic::power2::pow2(n) == 16,
        n == 5 ==> vstd::arithmetic::power2::pow2(n) == 32,
        n == 8 ==> vstd::arithmetic::power2::pow2(n) == 256,
{
    reveal(Cursor::u);
    vstd::arithmetic::power2::lemma2_to64();
    assert forall|c: Cursor| #![trigger c.u(n)] c.u(n).0 < vstd::arithmetic::power2::pow2(n) by {
        lemma_bits_value_bound(c.data, c.pos, n);
        vstd::arithmetic::power2::lemma_pow2_pos(n);
        let v = bits_value(c.data, c.pos, n) as int;
        vstd::arithmetic::div_mod::lemma_mod_decreases(v as nat, 0x1_0000_0000);
    }
}

/// Bit reader over an RBSP (emulation-prevention bytes already removed).
pub struct BitReader<'a> {
    data: &'a [u8],
    pos: usize,
}

impl<'a> View for BitReader<'a> {
    type V = Cursor;

    closed spec fn view(&self) -> Cursor {
        Cursor { data: self.data@, pos: self.pos as int, err: None }
    }
}

/// What a read that is specified to give `value` and to end at `end` leaves
/// behind: the result `res` and the reader `after`.
pub open spec fn reads<T>(
    after: BitReader,
    res: Result<T, H264Error>,
    value: T,
    end: Cursor,
) -> bool {
    &&& after.wf()
    &&& after@ == (Cursor { err: None, ..end })
    &&& match res {
        Ok(v) => end.err is None && v == value,
        Err(e) => end.err == Some(e@),
    }
}

impl<'a> BitReader<'a> {
    /// The cursor lies within the data, whose bits can be counted.
    pub open spec fn wf(&self) -> bool {
        &&& 0 <= self@.pos <= self@.total() <= usize::MAX
        &&& self@.err is None
    }

    /// A reader at the first bit of `data`.
    pub fn new(data: &'a [u8]) -> (r: Self)
        requires
            8 * data@.len() <= usize::MAX,
        ensures
            r.wf(),
            r@ == Cursor::start(data@),
    {
        BitReader { data, pos: 0 }
    }

    /// Bits consumed so far.
    pub fn bit_pos(&self) -> (p: usize)
        requires
            self.wf(),
        ensures
            p == self@.pos,
    {
        self.pos
    }

    /// Reads `bits` bits as an unsigned value, most significant bit first.
    /// Past 32 bits the earliest ones are shifted out.
    pub fn u(&mut self, bits: u32) -> (res: Result<u32, H264Error>)
        requires
            old(self).wf(),
        ensures
            reads(
                *final(self),
                res,
                old(self)@.u(bits as nat).0 as u32,
                old(self)@.u(bits as nat).1,
            ),
            old(self)@.u(bits as nat).0 <= u32::MAX,
    {
        proof {
            reveal(Cursor::u);
        }
        let mut v: u32 = 0;
        let mut i: u32 = 0;
        let ghost start = self.pos as int;
        let ghost data = self.data@;
        while i < bits
            invariant
                self.wf(),
                self.data@ == data,
                self.pos == start + i,
                i <= bits,
                old(self)@ == (Cursor { data, pos: start, err: None }),
                v == bits_value(data, start, i as nat) % 0x1_0000_0000,
            decreases bits - i,
        {
            if self.pos / 8 >= self.data.len() {
                proof {
                    reveal(Cursor::u);
                }
                return Err(H264Error::Eof);
            }
            let byte: u8 = self.data[self.pos / 8];
            let shift: u8 = (7 - self.pos % 8) as u8;
            let b: u32 = ((byte >> shift) & 1) as u32;
            proof {
                assert((byte >> shift) & 1 <= 1) by (bit_vector)
                    requires
                        shift < 8,
                ;
                assert(((v << 1) | b) == (2 * v + b) % 0x1_0000_0000) by (bit_vector)
                    requires
                        b <= 1,
                ;
                let whole = bits_value(data, start, i as nat);
                assert(bits_value(data, start, (i + 1) as nat) == 2 * whole + b);
                lemma_shift_in(whole, b as nat);
            }
            v = (v << 1) | b;
            self.pos = self.pos + 1;
            i = i + 1;
        }
        Ok(v)
    }

    /// Reads one bit.
    pub fn flag(&mut self) -> (res: Result<bool, H264Error>)
        requires
            old(self).wf(),
        ensures
            reads(*final(self), res, old(self)@.flag().0, old(self)@.flag().1),
    {
        Ok(self.u(1)? == 1)
    }

    /// Reads an unsigned Exp-Golomb code.
    pub fn ue(&mut self) -> (res: Result<u32, H264Error>)
        requires
            old(self).wf(),
        ensures
            reads(*final(self), res, old(self)@.ue().0 as u32, old(self)@.ue().1),
            old(self)@.ue().0 < 0xffff_ffff,
    {
        let mut zeros: u32 = 0;
        let ghost start = self.pos as int;
        let ghost data = self.data@;
        proof {
            old(self)@.lemma_ue_bound();
            reveal(Cursor::ue);
            reveal(Cursor::u);
        }
        loop
            invariant_except_break
                self.pos == start + zeros,
                zero_run(data, start) == zeros + zero_run(data, start + zeros),
            invariant
                self.wf(),
                self.data@ == data,
                zeros <= 31,
                old(self)@ == (Cursor { data, pos: start, err: None }),
                old(self)@.ue().0 < 0xffff_ffff,
            ensures
                self.pos == start + zeros + 1,
                zero_run(data, start) == zeros,
            decreases 32 - zeros,
        {
            proof {
                reveal(Cursor::ue);
                reveal(Cursor::u);
                reveal_with_fuel(bits_value, 2);
                if start + zeros < 8 * data.len() {
                    lemma_bit_at_most_one(data, start + zeros);
                }
            }
            if self.u(1)? != 0 {
                break;
            }
            zeros = zeros + 1;
            if zeros > 31 {
                return Err(malformed("ue > 31 leading zeros"));
            }
        }
        let rest: u32 = if zeros > 0 {
            self.u(zeros)?
        } else {
            0
        };
        proof {
            vstd::bits::lemma_u32_pow2_no_overflow(zeros as nat);
            vstd::bits::lemma_u32_shl_is_mul(1, zeros);
            lemma_bits_value_bound(data, start + zeros + 1, zeros as nat);
            vstd::arithmetic::power2::lemma2_to64();
            if zeros < 31 {
                vstd::arithmetic::power2::lemma_pow2_strictly_increases(zeros as nat, 31);
            }
        }
        Ok((1u32 << zeros) - 1 + rest)
    }

    /// Reads a signed Exp-Golomb code.
    pub fn se(&mut self) -> (res: Result<i32, H264Error>)
        requires
            old(self).wf(),
        ensures
            reads(*final(self), res, old(self)@.se().0 as i32, old(self)@.se().1),
            -0x7fff_ffff <= old(self)@.se().0 <= 0x7fff_ffff,
    {
        let k: i64 = self.ue()? as i64;
        if k % 2 == 0 {
            Ok((-(k / 2)) as i32)
        } else {
            Ok(((k + 1) / 2) as i32)
        }
    }

    /// True if RBSP data remains beyond the trailing stop bit: the last set
    /// bit is the stop bit, so payload remains when it lies past the cursor.
    pub fn has_more_rbsp_data(&self) -> (more: bool)
        requires
            self.wf(),
        ensures
            more == self@.more_rbsp_data(),
    {
        let total: usize = self.data.len() * 8;
        let mut bit: usize = total;
        while bit > self.pos
            invariant
                self.wf(),
                self.pos <= bit <= total,
                total == 8 * self.data@.len(),
                forall|i: int| bit <= i < total ==> bit_at(self.data@, i) != 1,
            decreases bit,
        {
            bit = bit - 1;
            let byte: u8 = self.data[bit / 8];
            let shift: u8 = (7 - bit % 8) as u8;
            if (byte >> shift) & 1 == 1 {
                assert(bit_at(self@.data, bit as int) == 1);
                return bit > self.pos;
            }
        }
        false
    }
}

/// The bytes 00 00 03: at index `i` of `s` stands an emulation-prevention
/// byte.
pub open spec fn is_emulation_byte(s: Seq<u8>, i: int) -> bool {
    2 <= i < s.len() && s[i] == 3 && s[i - 1] == 0 && s[i - 2] == 0
}

/// The first `n` bytes of `s` without the emulation-prevention bytes.
pub open spec fn rbsp_prefix(s: Seq<u8>, n: nat) -> Seq<u8>
    decreases n,
{
    if n == 0 {
        Seq::empty()
    } else if is_emulation_byte(s, n - 1) {
        rbsp_prefix(s, (n - 1) as nat)
    } else {
        rbsp_prefix(s, (n - 1) as nat).push(s[n - 1])
    }
}

/// `s` without its emulation-prevention bytes.
pub open spec fn rbsp_of(s: Seq<u8>) -> Seq<u8> {
    rbsp_prefix(s, s.len())
}

/// `s` with an emulation-prevention byte before each byte of at most 3 that
/// would follow two zero bytes.
pub open spec fn escaped(s: Seq<u8>) -> Seq<u8>
    decreases s.len(),
{
    if s.len() == 0 {
        Seq::empty()
    } else {
        let head = escaped(s.drop_last());
        let n = head.len() as int;
        if n >= 2 && head[n - 1] == 0 && head[n - 2] == 0 && s.last() <= 3 {
            head.push(3).push(s.last())
        } else {
            head.push(s.last())
        }
    }
}

/// The RBSP of a prefix does not depend on what follows it.
pub proof fn lemma_rbsp_prefix_local(s: Seq<u8>, t: Seq<u8>, n: nat)
    requires
        n <= s.len(),
        n <= t.len(),
        forall|i: int| 0 <= i < n ==> s[i] == t[i],
    ensures
        rbsp_prefix(s, n) == rbsp_prefix(t, n),
    decreases n,
{
    if n > 0 {
        lemma_rbsp_prefix_local(s, t, (n - 1) as nat);
    }
}

/// Stripping gives back every payload that was escaped for transport.
pub proof fn rbsp_undoes_escaping(s: Seq<u8>)
    ensures
        rbsp_of(escaped(s)) == s,
    decreases s.len(),
{
    if s.len() > 0 {
        let short = s.drop_last();
        let head = escaped(short);
        let n = head.len();
        let whole = escaped(s);
        rbsp_undoes_escaping(short);
        lemma_rbsp_prefix_local(head, whole, n);
        if n >= 2 && head[n - 1] == 0 && head[n - 2] == 0 && s.last() <= 3 {
            assert(is_emulation_byte(whole, n as int));
            assert(!is_emulation_byte(whole, n as int + 1));
            assert(rbsp_prefix(whole, n + 1) == rbsp_prefix(whole, n));
            assert(rbsp_prefix(whole, n + 2) == rbsp_prefix(whole, n + 1).push(s.last()));
        } else {
            assert(!is_emulation_byte(whole, n as int));
            assert(rbsp_prefix(whole, n + 1) == rbsp_prefix(whole, n).push(s.last()));
        }
        assert(short.push(s.last()) =~= s);
    }
}

/// A payload in which 00 00 03 does not occur is its own RBSP.
pub proof fn rbsp_keeps_plain_payload(s: Seq<u8>)
    requires
        forall|i: int| !is_emulation_byte(s, i),
    ensures
        rbsp_of(s) == s,
{
    lemma_rbsp_plain_prefix(s, s.len());
    assert(s.take(s.len() as int) =~= s);
}

proof fn lemma_rbsp_plain_prefix(s: Seq<u8>, n: nat)
    requires
        n <= s.len(),
        forall|i: int| !is_emulation_byte(s, i),
    ensures
        rbsp_prefix(s, n) == s.take(n as int),
    decreases n,
{
    if n > 0 {
        lemma_rbsp_plain_prefix(s, (n - 1) as nat);
        assert(!is_emulation_byte(s, n - 1));
        assert(s.take(n as int) =~= s.take(n - 1).push(s[n - 1]));
    } else {
        assert(s.take(0) =~= Seq::<u8>::empty());
    }
}

/// Strip emulation-prevention bytes (00 00 03 xx becomes 00 00 xx).
pub fn to_rbsp(nal_payload: &[u8]) -> (out: Vec<u8>)
    ensures
        out@ == rbsp_of(nal_payload@),
        out@.len() <= nal_payload@.len(),
{
    let mut out: Vec<u8> = Vec::with_capacity(nal_payload.len());
    let mut zeros: usize = 0;
    let mut i: usize = 0;
    while i < nal_payload.len()
        invariant
            i <= nal_payload@.len(),
            zeros <= i,
            forall|j: int| i - zeros <= j < i ==> nal_payload@[j] == 0,
            i > zeros ==> nal_payload@[i - zeros - 1] != 0,
            out@ == rbsp_prefix(nal_payload@, i as nat),
            out@.len() <= i,
        decreases nal_payload@.len() - i,
    {
        let b: u8 = nal_payload[i];
        i = i + 1;
        if zeros >= 2 && b == 3 {
            zeros = 0;
            continue;
        }
        if b == 0 {
            zeros = zeros + 1;
        } else {
            zeros = 0;
        }
        out.push(b);
    }
    out
}

} // verus!
