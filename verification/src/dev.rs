//! The display engine: a packed 4-bit framebuffer plus the synchronization
//! protocol that pushes it, in full or by sub-rectangle, through a bus
//! transport.
//!
//! Every operation that talks to the device is specified by the exact
//! transaction sequence it plans (`flush_plan`, `partial_flush_plan`,
//! `init_plan`): on success the transport's history grows by exactly the
//! plan, on a transport failure by a prefix of it and nothing more.

use vstd::prelude::*;

use crate::cmds;
use crate::ifce::{extends_by_prefix_of, BusOp, Framebuffer, Sh1122Interface, TransportError};

verus! {

/// Bits stored per pixel.
pub const PIXEL_BITS: usize = 4;
/// Left shift mapping a stored nibble back into the 8-bit value space.
pub const PIXEL_SHIFT: usize = 8 - PIXEL_BITS;
/// Mask of one stored pixel, before shifting.
pub const PIXEL_MASK: u8 = 0xf;

// ---------------------------------------------------------------------------
// Packed-pixel addressing
// ---------------------------------------------------------------------------

/// Linear index of pixel `(x, y)` in row-major order.
pub open spec fn pixel_index(width: int, x: int, y: int) -> int {
    x + y * width
}

/// Byte of the packed buffer that holds the pixel with linear index `idx`:
/// two pixels share one byte.
pub open spec fn byte_of(idx: int) -> int {
    idx / 2
}

/// Left shift of the nibble that holds the pixel with linear index `idx`:
/// even indices sit in the high nibble, odd ones in the low nibble.
pub open spec fn shift_of(idx: int) -> usize {
    if idx % 2 == 0 {
        4
    } else {
        0
    }
}

/// The stored value of pixel `(x, y)`: its nibble shifted back into the 8-bit
/// value space, so the low 4 bits of the result are always zero.
pub open spec fn stored_pixel(buf: Seq<u8>, width: int, x: int, y: int) -> u8 {
    let idx = pixel_index(width, x, y);
    ((buf[byte_of(idx)] >> shift_of(idx)) & 0xf) << 4
}

/// The byte that holds pixel `idx` after that pixel is overwritten with the
/// top nibble of `pixel`, the neighboring nibble kept.
pub open spec fn byte_with_pixel(b: u8, idx: int, pixel: u8) -> u8 {
    (b & !(0xfu8 << shift_of(idx))) | ((pixel >> 4) << shift_of(idx))
}

/// The packed buffer after pixel `(x, y)` is overwritten with the top nibble
/// of `pixel`.
pub open spec fn buf_with_pixel(buf: Seq<u8>, width: int, x: int, y: int, pixel: u8) -> Seq<u8> {
    let idx = pixel_index(width, x, y);
    buf.update(byte_of(idx), byte_with_pixel(buf[byte_of(idx)], idx, pixel))
}

/// The byte that `fill` writes everywhere: the quantized pixel packed into
/// both nibbles.
pub open spec fn fill_byte(pixel: u8) -> u8 {
    ((pixel >> 4) << 4) | (pixel >> 4)
}

// ---------------------------------------------------------------------------
// Planned bus transactions
// ---------------------------------------------------------------------------

/// A command transaction without payload.
pub open spec fn cmd_op(opcode: u8) -> BusOp {
    BusOp::Cmd { opcode, payload: Seq::empty() }
}

/// The two commands that set the device's column address cursor.
pub open spec fn col_adr_plan(col: u8) -> Seq<BusOp> {
    seq![
        cmd_op(cmds::SET_COL_ADR_LSB | (col & 0x0f)),
        cmd_op(cmds::SET_COL_ADR_MSB | ((col >> 4) & 0x0f)),
    ]
}

/// The command that sets the device's row address cursor.
pub open spec fn row_adr_plan(row: u8) -> Seq<BusOp> {
    seq![BusOp::Cmd { opcode: cmds::SET_ROW_ADR, payload: seq![row] }]
}

/// One window transfer: column cursor, row cursor, then `nbytes` bytes of the
/// packed buffer starting at the byte that holds pixel `(x, y)`.
pub open spec fn window_plan(buf: Seq<u8>, width: int, x: int, y: int, nbytes: int) -> Seq<BusOp> {
    let start = byte_of(pixel_index(width, x, y));
    col_adr_plan(x as u8) + row_adr_plan(y as u8) + seq![
        BusOp::Data { payload: buf.subrange(start, start + nbytes) },
    ]
}

/// The row-by-row transfers of a non-full-width rectangle: one window of
/// `nbytes` bytes for each of `rows` consecutive rows starting at `y`.
pub open spec fn row_windows_plan(
    buf: Seq<u8>,
    width: int,
    x: int,
    y: int,
    rows: int,
    nbytes: int,
) -> Seq<BusOp>
    decreases rows,
{
    if rows <= 0 {
        Seq::empty()
    } else {
        row_windows_plan(buf, width, x, y, rows - 1, nbytes) + window_plan(
            buf,
            width,
            x,
            y + rows - 1,
            nbytes,
        )
    }
}

/// The full flush: cursor to `(0, 0)`, then the whole packed buffer as one
/// data write.
pub open spec fn flush_plan(buf: Seq<u8>) -> Seq<BusOp> {
    col_adr_plan(0) + row_adr_plan(0) + seq![BusOp::Data { payload: buf }]
}

/// The window that `partial_flush` actually transfers: `x` widened leftward
/// to the 2-pixel packing boundary, the width grown by the same amount.
pub open spec fn aligned_window(width: int, x: int, y: int, w: int) -> (int, int) {
    if pixel_index(width, x, y) % 2 != 0 {
        (x - 1, w + 1)
    } else {
        (x, w)
    }
}

/// The transactions `partial_flush(x, y, w, h)` plans against a `width` by
/// `height` device holding `buf`: nothing for a rectangle that starts out of
/// bounds; one contiguous transfer when the aligned, clamped width spans the
/// whole device width; otherwise one transfer per affected row.
pub open spec fn partial_flush_plan(
    buf: Seq<u8>,
    width: int,
    height: int,
    x: int,
    y: int,
    w: int,
    h: int,
) -> Seq<BusOp> {
    if x >= width || y >= height {
        Seq::empty()
    } else {
        let (ax, aw) = aligned_window(width, x, y, w);
        let cw = if aw < width - ax {
            aw
        } else {
            width - ax
        };
        let ch = if h < height - y {
            h
        } else {
            height - y
        };
        if cw == width {
            window_plan(buf, width, ax, y, cw * ch * 4 / 8)
        } else {
            row_windows_plan(buf, width, ax, y, ch, (cw * 4 + 4) / 8)
        }
    }
}

/// The strictly ordered initialization sequence, ending in a full flush of
/// the buffer.
pub open spec fn init_plan(height: int, buf: Seq<u8>) -> Seq<BusOp> {
    seq![cmd_op(cmds::SET_DISP | 0x00)] + row_adr_plan(0) + col_adr_plan(0) + seq![
        cmd_op(cmds::SET_DISP_START_LINE | 0x00),
        cmd_op(cmds::SET_SEG_REMAP | 0x01),
        cmd_op(cmds::SET_SEG_REMAP | 0x00),
        BusOp::Cmd { opcode: cmds::SET_MUX_RATIO, payload: seq![(height - 1) as u8] },
        cmd_op(cmds::SET_COM_OUT_DIR | 0x00),
        BusOp::Cmd { opcode: cmds::SET_DISP_OFFSET, payload: seq![0u8] },
        BusOp::Cmd { opcode: cmds::SET_CONTRAST, payload: seq![0x80u8] },
        cmd_op(cmds::SET_ENTIRE_ON),
        cmd_op(cmds::SET_NORM_INV | 0x00),
        cmd_op(cmds::SET_DISP | 0x01),
    ] + flush_plan(buf)
}

// ---------------------------------------------------------------------------
// Lemmas about prefix extension
// ---------------------------------------------------------------------------

/// Completing plan `a` and then extending by a prefix of plan `b` extends the
/// starting history by a prefix of `a + b`.
proof fn lemma_prefix_step(
    before: Seq<BusOp>,
    mid: Seq<BusOp>,
    after: Seq<BusOp>,
    a: Seq<BusOp>,
    b: Seq<BusOp>,
)
    requires
        mid == before + a,
        extends_by_prefix_of(mid, after, b),
    ensures
        extends_by_prefix_of(before, after, a + b),
{
    let n = after.len() - mid.len();
    assert((a + b).take(a.len() as int + n) =~= a + b.take(n));
    assert(before + (a + b.take(n)) =~= (before + a) + b.take(n));
}

/// A history that extends by a prefix of `a` also extends by a prefix of any
/// plan that begins with `a`.
proof fn lemma_prefix_mono(before: Seq<BusOp>, after: Seq<BusOp>, a: Seq<BusOp>, full: Seq<BusOp>)
    requires
        extends_by_prefix_of(before, after, a),
        a.len() <= full.len(),
        full.take(a.len() as int) == a,
    ensures
        extends_by_prefix_of(before, after, full),
{
    let n = after.len() - before.len();
    assert(full.take(n) =~= a.take(n));
}

/// An unchanged history extends by the empty prefix of any plan.
proof fn lemma_prefix_refl(before: Seq<BusOp>, planned: Seq<BusOp>)
    ensures
        extends_by_prefix_of(before, before, planned),
{
    assert(before + planned.take(0) =~= before);
}

/// A history extends by the whole of a completed plan.
proof fn lemma_prefix_full(before: Seq<BusOp>, after: Seq<BusOp>, planned: Seq<BusOp>)
    requires
        after == before + planned,
    ensures
        extends_by_prefix_of(before, after, planned),
{
    assert(planned.take(planned.len() as int) =~= planned);
}

// ---------------------------------------------------------------------------
// Lemmas about packed addressing arithmetic
// ---------------------------------------------------------------------------

/// `n * 4 / 8` is `n / 2`: scaling a pixel count to bits and then to bytes
/// halves it.
proof fn lemma_quarter_div(n: int)
    requires
        n >= 0,
    ensures
        n * 4 / 8 == n / 2,
{
    let q = n / 2;
    let r = n % 2;
    vstd::arithmetic::div_mod::lemma_fundamental_div_mod(n, 2);
    assert(n * 4 == 8 * q + 4 * r);
    vstd::arithmetic::div_mod::lemma_div_multiples_vanish_fancy(q, 4 * r, 8);
}

/// With an even width every row starts on a byte boundary, so a pixel's
/// linear index has the parity of its column.
proof fn lemma_index_parity(width: int, x: int, y: int)
    requires
        width % 2 == 0,
        width >= 0,
    ensures
        (x + y * width) % 2 == x % 2,
{
    vstd::arithmetic::div_mod::lemma_fundamental_div_mod(width, 2);
    assert(y * width == 2 * (y * (width / 2))) by (nonlinear_arith)
        requires
            width == 2 * (width / 2),
    ;
    vstd::arithmetic::div_mod::lemma_mod_multiples_vanish(y * (width / 2), x, 2);
}

/// The linear index of an in-bounds pixel is below `width * height`.
proof fn lemma_index_below(width: int, height: int, x: int, y: int)
    requires
        0 <= x < width,
        0 <= y < height,
    ensures
        0 <= y * width <= x + y * width < width * height,
{
    assert(0 <= y * width && x + y * width < width * height) by (nonlinear_arith)
        requires
            0 <= x < width,
            0 <= y < height,
    ;
}

/// The byte that holds an in-bounds pixel lies inside the packed buffer.
proof fn lemma_byte_in_buf(width: int, height: int, x: int, y: int)
    requires
        width % 2 == 0,
        0 <= x < width,
        0 <= y < height,
    ensures
        0 <= byte_of(pixel_index(width, x, y)) < width * height * 4 / 8,
{
    let idx = pixel_index(width, x, y);
    lemma_index_below(width, height, x, y);
    lemma_quarter_div(width * height);
    vstd::arithmetic::div_mod::lemma_fundamental_div_mod(width, 2);
    let k = (width / 2) * height;
    assert(width * height == 2 * k) by (nonlinear_arith)
        requires
            width == 2 * (width / 2),
            k == (width / 2) * height,
    ;
    vstd::arithmetic::div_mod::lemma_div_is_ordered(idx, 2 * k - 1, 2);
    vstd::arithmetic::div_mod::lemma_div_multiples_vanish_fancy(k - 1, 1, 2);
    assert((2 * k - 1) / 2 == k - 1);
    vstd::arithmetic::div_mod::lemma_div_pos_is_pos(idx, 2);
}

/// A row-by-row window of `cw` pixels starting at even column `ax` stays
/// inside the packed buffer, rounded-up trailing nibble included.
proof fn lemma_window_fits(width: int, height: int, ax: int, k: int, cw: int)
    requires
        width % 2 == 0,
        ax % 2 == 0,
        0 <= ax,
        0 <= cw,
        ax + cw <= width,
        0 <= k < height,
    ensures
        0 <= byte_of(pixel_index(width, ax, k)),
        byte_of(pixel_index(width, ax, k)) + (cw * 4 + 4) / 8 <= width * height * 4 / 8,
{
    let idx = pixel_index(width, ax, k);
    vstd::arithmetic::mul::lemma_mul_nonnegative(k, width);
    lemma_index_parity(width, ax, k);
    vstd::arithmetic::div_mod::lemma_div_pos_is_pos(idx, 2);
    vstd::arithmetic::div_mod::lemma_fundamental_div_mod(idx, 2);
    assert(cw * 4 + 4 == (cw + 1) * 4);
    lemma_quarter_div(cw + 1);
    vstd::arithmetic::div_mod::lemma_fundamental_div_mod(cw + 1, 2);
    lemma_quarter_div(width * height);
    lemma_index_parity(width, 0, height);
    vstd::arithmetic::mul::lemma_mul_is_commutative(width, height);
    vstd::arithmetic::div_mod::lemma_fundamental_div_mod(width * height, 2);
    vstd::arithmetic::div_mod::lemma_fundamental_div_mod(width, 2);
    vstd::arithmetic::div_mod::lemma_fundamental_div_mod(ax, 2);
    vstd::arithmetic::mul::lemma_mul_inequality(k + 1, height, width);
    vstd::arithmetic::mul::lemma_mul_is_distributive_add_other_way(width, k, 1);
    vstd::arithmetic::mul::lemma_mul_is_commutative(k + 1, width);
    vstd::arithmetic::mul::lemma_mul_is_commutative(height, width);
}

/// A full-width block of `ch` rows starting at row `y` stays inside the
/// packed buffer.
proof fn lemma_full_window_fits(width: int, height: int, y: int, ch: int)
    requires
        width % 2 == 0,
        0 <= width,
        0 <= y < height,
        0 <= ch,
        y + ch <= height,
    ensures
        0 <= byte_of(pixel_index(width, 0, y)),
        byte_of(pixel_index(width, 0, y)) + width * ch * 4 / 8 <= width * height * 4 / 8,
{
    let idx = pixel_index(width, 0, y);
    vstd::arithmetic::mul::lemma_mul_nonnegative(y, width);
    lemma_index_parity(width, 0, y);
    vstd::arithmetic::div_mod::lemma_fundamental_div_mod(idx, 2);
    lemma_quarter_div(width * ch);
    lemma_index_parity(width, 0, ch);
    vstd::arithmetic::mul::lemma_mul_is_commutative(width, ch);
    vstd::arithmetic::div_mod::lemma_fundamental_div_mod(width * ch, 2);
    vstd::arithmetic::mul::lemma_mul_nonnegative(ch, width);
    lemma_quarter_div(width * height);
    lemma_index_parity(width, 0, height);
    vstd::arithmetic::mul::lemma_mul_is_commutative(width, height);
    vstd::arithmetic::div_mod::lemma_fundamental_div_mod(width * height, 2);
    vstd::arithmetic::mul::lemma_mul_inequality(y + ch, height, width);
    vstd::arithmetic::mul::lemma_mul_is_distributive_add_other_way(width, y, ch);
    vstd::arithmetic::mul::lemma_mul_is_commutative(y + ch, width);
    vstd::arithmetic::mul::lemma_mul_is_commutative(height, width);
}

/// A row-by-row plan issues four transactions per row.
proof fn lemma_row_windows_len(
    buf: Seq<u8>,
    width: int,
    x: int,
    y: int,
    rows: int,
    nbytes: int,
)
    requires
        rows >= 0,
    ensures
        row_windows_plan(buf, width, x, y, rows, nbytes).len() == 4 * rows,
    decreases rows,
{
    if rows > 0 {
        lemma_row_windows_len(buf, width, x, y, rows - 1, nbytes);
    }
}

/// The plan for the first `k` rows is a prefix of the plan for `rows` rows.
proof fn lemma_row_windows_take(
    buf: Seq<u8>,
    width: int,
    x: int,
    y: int,
    k: int,
    rows: int,
    nbytes: int,
)
    requires
        0 <= k <= rows,
    ensures
        row_windows_plan(buf, width, x, y, rows, nbytes).take(4 * k) == row_windows_plan(
            buf,
            width,
            x,
            y,
            k,
            nbytes,
        ),
    decreases rows,
{
    lemma_row_windows_len(buf, width, x, y, rows, nbytes);
    lemma_row_windows_len(buf, width, x, y, k, nbytes);
    if k < rows {
        lemma_row_windows_take(buf, width, x, y, k, rows - 1, nbytes);
        lemma_row_windows_len(buf, width, x, y, rows - 1, nbytes);
        assert(row_windows_plan(buf, width, x, y, rows, nbytes).take(4 * k)
            =~= row_windows_plan(buf, width, x, y, rows - 1, nbytes).take(4 * k));
    } else {
        assert(row_windows_plan(buf, width, x, y, rows, nbytes).take(4 * k)
            =~= row_windows_plan(buf, width, x, y, rows, nbytes));
    }
}

/// Distinct in-bounds pixels have distinct linear indices.
proof fn lemma_index_injective(width: int, x: int, y: int, i: int, j: int)
    requires
        0 <= x < width,
        0 <= i < width,
        0 <= y,
        0 <= j,
        !(i == x && j == y),
    ensures
        pixel_index(width, x, y) != pixel_index(width, i, j),
{
    if y != j {
        assert(x + y * width != i + j * width) by (nonlinear_arith)
            requires
                0 <= x < width,
                0 <= i < width,
                0 <= y,
                0 <= j,
                y != j,
        ;
    }
}

// ---------------------------------------------------------------------------
// Lemmas about nibble packing
// ---------------------------------------------------------------------------

/// Reading back the nibble that was just written returns the written value's
/// top nibble, shifted back into the 8-bit space.
proof fn lemma_written_nibble(b: u8, s: usize, v: u8)
    requires
        s == 0 || s == 4,
    ensures
        ((((b & !(0xfu8 << s)) | ((v >> 4) << s)) >> s) & 0xf) << 4 == v & 0xf0,
{
    assert(((((b & !(0xfu8 << s)) | ((v >> 4) << s)) >> s) & 0xf) << 4 == v & 0xf0)
        by (bit_vector)
        requires
            s == 0 || s == 4,
    ;
}

/// Writing one nibble of a byte leaves the other nibble's value unchanged.
proof fn lemma_other_nibble(b: u8, s: usize, t: usize, v: u8)
    requires
        (s == 0 && t == 4) || (s == 4 && t == 0),
    ensures
        (((b & !(0xfu8 << s)) | ((v >> 4) << s)) >> t) & 0xf == (b >> t) & 0xf,
{
    assert((((b & !(0xfu8 << s)) | ((v >> 4) << s)) >> t) & 0xf == (b >> t) & 0xf)
        by (bit_vector)
        requires
            (s == 0 && t == 4) || (s == 4 && t == 0),
    ;
}

/// Masking a nibble in place and then shifting it down equals shifting first
/// and masking after: the read path computes `stored_pixel`.
proof fn lemma_mask_extract(b: u8, s: usize)
    requires
        s == 0 || s == 4,
    ensures
        ((b & (0xfu8 << s)) >> s) << 4 == ((b >> s) & 0xf) << 4,
{
    assert(((b & (0xfu8 << s)) >> s) << 4 == ((b >> s) & 0xf) << 4) by (bit_vector)
        requires
            s == 0 || s == 4,
    ;
}

/// Either nibble of the fill byte reads back as the fill value's top nibble.
proof fn lemma_fill_nibble(v: u8, s: usize)
    requires
        s == 0 || s == 4,
    ensures
        ((fill_byte(v) >> s) & 0xf) << 4 == v & 0xf0,
{
    assert((((((v >> 4) << 4) | (v >> 4)) >> s) & 0xf) << 4 == v & 0xf0) by (bit_vector)
        requires
            s == 0 || s == 4,
    ;
}

// ---------------------------------------------------------------------------
// The device
// ---------------------------------------------------------------------------

/// The display engine for one SH1122-class device.
///
/// It owns the packed pixel buffer and the bus transport; `width` and
/// `height` never change after construction.
pub struct Sh1122Device<T: Sh1122Interface> {
    pub interface: T,
    pub width: usize,
    pub height: usize,
    pub buf: Vec<u8>,
}

/// The parts of the device that bus traffic never touches: dimensions and
/// pixel buffer.
pub open spec fn fb_unchanged<T: Sh1122Interface>(a: &Sh1122Device<T>, b: &Sh1122Device<T>) -> bool {
    &&& a.width == b.width
    &&& a.height == b.height
    &&& a.buf@ == b.buf@
}

impl<T: Sh1122Interface> Sh1122Device<T> {
    /// Representation invariant: an even pixel width, at least one row, room
    /// for the packed buffer arithmetic in `usize`, and a buffer of exactly
    /// `width * height * 4 / 8` bytes.
    pub open spec fn wf(&self) -> bool {
        &&& self.width % 2 == 0
        &&& self.height >= 1
        &&& self.width * self.height * 4 <= usize::MAX
        &&& self.buf@.len() == self.width * self.height * 4 / 8
    }

    /// The transactions this device's transport has carried, oldest first.
    pub open spec fn bus_log(&self) -> Seq<BusOp> {
        self.interface.log()
    }

    /// Builds an engine around a transport with a zero-filled buffer of
    /// `width * height * 4 / 8` bytes.
    pub fn with_interface(interface: T, width: usize, height: usize) -> (r: Self)
        requires
            width % 2 == 0,
            height >= 1,
            width * height * 4 <= usize::MAX,
        ensures
            r.wf(),
            r.width == width,
            r.height == height,
            r.interface == interface,
            r.buf@ == Seq::new((width * height * 4 / 8) as nat, |i: int| 0u8),
    {
        let len = width * height * PIXEL_BITS / 8;
        let mut buf: Vec<u8> = Vec::new();
        while buf.len() < len
            invariant
                buf@.len() <= len,
                forall|i: int| 0 <= i < buf@.len() ==> buf@[i] == 0u8,
            decreases len - buf@.len(),
        {
            buf.push(0u8);
        }
        proof {
            assert(buf@ =~= Seq::new((width * height * 4 / 8) as nat, |i: int| 0u8));
        }
        Sh1122Device { interface, width, height, buf }
    }

    /// Sends one command without payload.
    fn cmd0(&mut self, opcode: u8) -> (r: Result<(), TransportError>)
        ensures
            fb_unchanged(old(self), final(self)),
            r is Ok ==> final(self).bus_log() == old(self).bus_log().push(cmd_op(opcode)),
            r is Err ==> final(self).bus_log() == old(self).bus_log(),
    {
        let data: Vec<u8> = Vec::new();
        let r = self.interface.write_cmd(opcode, data.as_slice());
        proof {
            if r is Ok {
                assert(data@ =~= Seq::<u8>::empty());
            }
        }
        r
    }

    /// Sends one command with a single payload byte.
    fn cmd1(&mut self, opcode: u8, arg: u8) -> (r: Result<(), TransportError>)
        ensures
            fb_unchanged(old(self), final(self)),
            r is Ok ==> final(self).bus_log() == old(self).bus_log().push(
                (BusOp::Cmd { opcode, payload: seq![arg] }),
            ),
            r is Err ==> final(self).bus_log() == old(self).bus_log(),
    {
        let mut data: Vec<u8> = Vec::new();
        data.push(arg);
        let r = self.interface.write_cmd(opcode, data.as_slice());
        proof {
            if r is Ok {
                assert(data@ =~= seq![arg]);
            }
        }
        r
    }

    /// Turns the display on.
    pub fn display_on(&mut self) -> (r: Result<(), TransportError>)
        ensures
            fb_unchanged(old(self), final(self)),
            r is Ok ==> final(self).bus_log() == old(self).bus_log().push(
                cmd_op(cmds::SET_DISP | 0x01),
            ),
            r is Err ==> final(self).bus_log() == old(self).bus_log(),
    {
        self.cmd0(cmds::SET_DISP | 0x01u8)
    }

    /// Turns the display off.
    pub fn display_off(&mut self) -> (r: Result<(), TransportError>)
        ensures
            fb_unchanged(old(self), final(self)),
            r is Ok ==> final(self).bus_log() == old(self).bus_log().push(
                cmd_op(cmds::SET_DISP | 0x00),
            ),
            r is Err ==> final(self).bus_log() == old(self).bus_log(),
    {
        self.cmd0(cmds::SET_DISP | 0x00u8)
    }

    /// Sets the device's column address cursor.
    fn set_col_adr(&mut self, col: u8) -> (r: Result<(), TransportError>)
        ensures
            fb_unchanged(old(self), final(self)),
            extends_by_prefix_of(old(self).bus_log(), final(self).bus_log(), col_adr_plan(col)),
            r is Ok ==> final(self).bus_log() == old(self).bus_log() + col_adr_plan(col),
    {
        let ghost l0 = self.bus_log();
        match self.cmd0(cmds::SET_COL_ADR_LSB | (col & 0x0fu8)) {
            Ok(()) => {},
            Err(e) => {
                proof {
                    lemma_prefix_refl(l0, col_adr_plan(col));
                }
                return Err(e);
            },
        }
        match self.cmd0(cmds::SET_COL_ADR_MSB | ((col >> 4u8) & 0x0fu8)) {
            Ok(()) => {},
            Err(e) => {
                proof {
                    assert(self.bus_log() =~= l0 + col_adr_plan(col).take(1));
                }
                return Err(e);
            },
        }
        proof {
            assert(self.bus_log() =~= l0 + col_adr_plan(col));
            lemma_prefix_full(l0, self.bus_log(), col_adr_plan(col));
        }
        Ok(())
    }

    /// Sets the device's row address cursor.
    fn set_row_adr(&mut self, row: u8) -> (r: Result<(), TransportError>)
        ensures
            fb_unchanged(old(self), final(self)),
            extends_by_prefix_of(old(self).bus_log(), final(self).bus_log(), row_adr_plan(row)),
            r is Ok ==> final(self).bus_log() == old(self).bus_log() + row_adr_plan(row),
            r is Err ==> final(self).bus_log() == old(self).bus_log(),
    {
        let ghost l0 = self.bus_log();
        match self.cmd1(cmds::SET_ROW_ADR, row) {
            Ok(()) => {
                proof {
                    assert(self.bus_log() =~= l0 + row_adr_plan(row));
                    lemma_prefix_full(l0, self.bus_log(), row_adr_plan(row));
                }
                Ok(())
            },
            Err(e) => {
                proof {
                    lemma_prefix_refl(l0, row_adr_plan(row));
                }
                Err(e)
            },
        }
    }

    /// Sets the display start line.
    fn set_start_line(&mut self, line: u8) -> (r: Result<(), TransportError>)
        ensures
            fb_unchanged(old(self), final(self)),
            r is Ok ==> final(self).bus_log() == old(self).bus_log().push(
                cmd_op(cmds::SET_DISP_START_LINE | (line & 0x3f)),
            ),
            r is Err ==> final(self).bus_log() == old(self).bus_log(),
    {
        self.cmd0(cmds::SET_DISP_START_LINE | (line & 0x3fu8))
    }

    /// Disables segment remap.
    fn set_seg_remap_off(&mut self) -> (r: Result<(), TransportError>)
        ensures
            fb_unchanged(old(self), final(self)),
            r is Ok ==> final(self).bus_log() == old(self).bus_log().push(
                cmd_op(cmds::SET_SEG_REMAP | 0x00),
            ),
            r is Err ==> final(self).bus_log() == old(self).bus_log(),
    {
        self.cmd0(cmds::SET_SEG_REMAP | 0x00u8)
    }

    /// Enables segment remap.
    fn set_seg_remap_on(&mut self) -> (r: Result<(), TransportError>)
        ensures
            fb_unchanged(old(self), final(self)),
            r is Ok ==> final(self).bus_log() == old(self).bus_log().push(
                cmd_op(cmds::SET_SEG_REMAP | 0x01),
            ),
            r is Err ==> final(self).bus_log() == old(self).bus_log(),
    {
        self.cmd0(cmds::SET_SEG_REMAP | 0x01u8)
    }

    /// Sets the multiplex ratio.
    fn set_mux_ratio(&mut self, ratio: u8) -> (r: Result<(), TransportError>)
        ensures
            fb_unchanged(old(self), final(self)),
            r is Ok ==> final(self).bus_log() == old(self).bus_log().push(
                (BusOp::Cmd { opcode: cmds::SET_MUX_RATIO, payload: seq![ratio] }),
            ),
            r is Err ==> final(self).bus_log() == old(self).bus_log(),
    {
        self.cmd1(cmds::SET_MUX_RATIO, ratio)
    }

    /// Sets the common output scan direction.
    fn set_com_output_scan_dir(&mut self, dir: u8) -> (r: Result<(), TransportError>)
        ensures
            fb_unchanged(old(self), final(self)),
            r is Ok ==> final(self).bus_log() == old(self).bus_log().push(
                cmd_op(cmds::SET_COM_OUT_DIR | (dir & 0x01)),
            ),
            r is Err ==> final(self).bus_log() == old(self).bus_log(),
    {
        self.cmd0(cmds::SET_COM_OUT_DIR | (dir & 0x01u8))
    }

    /// Sets the display offset.
    fn set_display_offset(&mut self, offset: u8) -> (r: Result<(), TransportError>)
        ensures
            fb_unchanged(old(self), final(self)),
            r is Ok ==> final(self).bus_log() == old(self).bus_log().push(
                (BusOp::Cmd { opcode: cmds::SET_DISP_OFFSET, payload: seq![offset] }),
            ),
            r is Err ==> final(self).bus_log() == old(self).bus_log(),
    {
        self.cmd1(cmds::SET_DISP_OFFSET, offset)
    }

    /// Sets the contrast.
    pub fn set_contrast(&mut self, contrast: u8) -> (r: Result<(), TransportError>)
        ensures
            fb_unchanged(old(self), final(self)),
            r is Ok ==> final(self).bus_log() == old(self).bus_log().push(
                (BusOp::Cmd { opcode: cmds::SET_CONTRAST, payload: seq![contrast] }),
            ),
            r is Err ==> final(self).bus_log() == old(self).bus_log(),
    {
        self.cmd1(cmds::SET_CONTRAST, contrast)
    }

    /// Sends the entire-display-on test pulse.
    fn set_entire_on(&mut self) -> (r: Result<(), TransportError>)
        ensures
            fb_unchanged(old(self), final(self)),
            r is Ok ==> final(self).bus_log() == old(self).bus_log().push(
                cmd_op(cmds::SET_ENTIRE_ON),
            ),
            r is Err ==> final(self).bus_log() == old(self).bus_log(),
    {
        self.cmd0(cmds::SET_ENTIRE_ON)
    }

    /// Selects normal or inverted polarity.
    pub fn set_inverted(&mut self, inverted: bool) -> (r: Result<(), TransportError>)
        ensures
            fb_unchanged(old(self), final(self)),
            r is Ok ==> final(self).bus_log() == old(self).bus_log().push(
                cmd_op(cmds::SET_NORM_INV | (if inverted { 1u8 } else { 0u8 })),
            ),
            r is Err ==> final(self).bus_log() == old(self).bus_log(),
    {
        self.cmd0(cmds::SET_NORM_INV | (if inverted { 1u8 } else { 0u8 }))
    }

    /// Byte index and bit shift of the nibble that stores pixel `(x, y)`.
    ///
    /// Read and write share this single addressing function; the alignment
    /// logic of `partial_flush` consults the same shift.
    fn get_idx(&self, x: usize, y: usize) -> (r: (usize, usize))
        requires
            self.wf(),
            x < self.width,
            y < self.height,
        ensures
            r.0 == byte_of(pixel_index(self.width as int, x as int, y as int)),
            r.1 == shift_of(pixel_index(self.width as int, x as int, y as int)),
            r.0 < self.buf@.len(),
    {
        proof {
            lemma_index_below(self.width as int, self.height as int, x as int, y as int);
            lemma_byte_in_buf(self.width as int, self.height as int, x as int, y as int);
            vstd::arithmetic::mul::lemma_mul_nonnegative(self.width as int, self.height as int);
            vstd::arithmetic::mul::lemma_mul_nonnegative(
                self.width as int * self.height as int,
                3,
            );
        }
        let idx = x + y * self.width;
        proof {
            lemma_quarter_div(idx as int);
            vstd::arithmetic::div_mod::lemma_fundamental_div_mod(idx as int, 2);
        }
        let byte_idx = idx * PIXEL_BITS / 8;
        proof {
            vstd::arithmetic::div_mod::lemma_div_multiples_vanish(2 * (byte_idx as int), 4);
            assert(byte_idx * 8 == 4 * (2 * (byte_idx as int)));
        }
        let bit_idx = 8 - PIXEL_BITS - PIXEL_BITS * (idx - byte_idx * 8 / PIXEL_BITS);
        (byte_idx, bit_idx)
    }

    /// Resets the device cursor to `(0, 0)` and writes the whole packed
    /// buffer as one data transaction.
    pub fn flush(&mut self) -> (r: Result<(), TransportError>)
        requires
            old(self).wf(),
        ensures
            final(self).wf(),
            fb_unchanged(old(self), final(self)),
            extends_by_prefix_of(
                old(self).bus_log(),
                final(self).bus_log(),
                flush_plan(old(self).buf@),
            ),
            r is Ok ==> final(self).bus_log() == old(self).bus_log() + flush_plan(old(self).buf@),
    {
        let ghost l0 = self.bus_log();
        let ghost plan = flush_plan(self.buf@);
        match self.set_col_adr(0) {
            Ok(()) => {},
            Err(e) => {
                proof {
                    assert(plan.take(2) =~= col_adr_plan(0));
                    lemma_prefix_mono(l0, self.bus_log(), col_adr_plan(0), plan);
                }
                return Err(e);
            },
        }
        match self.set_row_adr(0) {
            Ok(()) => {},
            Err(e) => {
                proof {
                    assert(self.bus_log() =~= l0 + plan.take(2));
                }
                return Err(e);
            },
        }
        let r = self.interface.write_data(self.buf.as_slice());
        match r {
            Ok(()) => {
                proof {
                    assert(self.bus_log() =~= l0 + plan);
                    lemma_prefix_full(l0, self.bus_log(), plan);
                }
                Ok(())
            },
            Err(e) => {
                proof {
                    assert(self.bus_log() =~= l0 + plan.take(3));
                }
                Err(e)
            },
        }
    }

    /// Runs the fixed initialization sequence: display off, cursor and start
    /// line zeroed, the remap toggled on then off, multiplex ratio set to
    /// `height - 1`, scan direction, offset, default contrast, the
    /// entire-display-on pulse, normal polarity, display on, and finally a
    /// full flush of the buffer.  A failing command aborts the rest.
    pub fn init_display(&mut self) -> (r: Result<(), TransportError>)
        requires
            old(self).wf(),
        ensures
            final(self).wf(),
            fb_unchanged(old(self), final(self)),
            extends_by_prefix_of(
                old(self).bus_log(),
                final(self).bus_log(),
                init_plan(old(self).height as int, old(self).buf@),
            ),
            r is Ok ==> final(self).bus_log() == old(self).bus_log() + init_plan(
                old(self).height as int,
                old(self).buf@,
            ),
    {
        let ghost l0 = self.bus_log();
        let ghost plan = init_plan(self.height as int, self.buf@);

        match self.display_off() {
            Ok(()) => {},
            Err(e) => {
                proof {
                    assert(self.bus_log() =~= l0 + plan.take(0));
                }
                return Err(e);
            },
        }
        proof {
            assert(self.bus_log() =~= l0 + plan.take(1));
        }
        match self.set_row_adr(0) {
            Ok(()) => {},
            Err(e) => {
                proof {
                    assert(self.bus_log() =~= l0 + plan.take(1));
                }
                return Err(e);
            },
        }
        proof {
            assert(self.bus_log() =~= l0 + plan.take(2));
        }
        let ghost pre = self.bus_log();
        match self.set_col_adr(0) {
            Ok(()) => {},
            Err(e) => {
                proof {
                    lemma_prefix_step(l0, pre, self.bus_log(), plan.take(2), col_adr_plan(0));
                    assert(plan.take(4) =~= plan.take(2) + col_adr_plan(0));
                    lemma_prefix_mono(l0, self.bus_log(), plan.take(2) + col_adr_plan(0), plan);
                }
                return Err(e);
            },
        }
        proof {
            assert(self.bus_log() =~= l0 + plan.take(4));
        }
        proof {
            assert(0u8 & 0x3fu8 == 0u8) by (bit_vector);
        }
        match self.set_start_line(0) {
            Ok(()) => {},
            Err(e) => {
                proof {
                    assert(self.bus_log() =~= l0 + plan.take(4));
                }
                return Err(e);
            },
        }
        proof {
            assert(self.bus_log() =~= l0 + plan.take(5));
        }
        match self.set_seg_remap_on() {
            Ok(()) => {},
            Err(e) => {
                proof {
                    assert(self.bus_log() =~= l0 + plan.take(5));
                }
                return Err(e);
            },
        }
        proof {
            assert(self.bus_log() =~= l0 + plan.take(6));
        }
        match self.set_seg_remap_off() {
            Ok(()) => {},
            Err(e) => {
                proof {
                    assert(self.bus_log() =~= l0 + plan.take(6));
                }
                return Err(e);
            },
        }
        proof {
            assert(self.bus_log() =~= l0 + plan.take(7));
        }
        match self.set_mux_ratio(#[verifier::truncate] ((self.height - 1) as u8)) {
            Ok(()) => {},
            Err(e) => {
                proof {
                    assert(self.bus_log() =~= l0 + plan.take(7));
                }
                return Err(e);
            },
        }
        proof {
            assert(self.bus_log() =~= l0 + plan.take(8));
        }
        proof {
            assert(0u8 & 0x01u8 == 0u8) by (bit_vector);
        }
        match self.set_com_output_scan_dir(0) {
            Ok(()) => {},
            Err(e) => {
                proof {
                    assert(self.bus_log() =~= l0 + plan.take(8));
                }
                return Err(e);
            },
        }
        proof {
            assert(self.bus_log() =~= l0 + plan.take(9));
        }
        match self.set_display_offset(0) {
            Ok(()) => {},
            Err(e) => {
                proof {
                    assert(self.bus_log() =~= l0 + plan.take(9));
                }
                return Err(e);
            },
        }
        proof {
            assert(self.bus_log() =~= l0 + plan.take(10));
        }
        match self.set_contrast(0x80u8) {
            Ok(()) => {},
            Err(e) => {
                proof {
                    assert(self.bus_log() =~= l0 + plan.take(10));
                }
                return Err(e);
            },
        }
        proof {
            assert(self.bus_log() =~= l0 + plan.take(11));
        }
        match self.set_entire_on() {
            Ok(()) => {},
            Err(e) => {
                proof {
                    assert(self.bus_log() =~= l0 + plan.take(11));
                }
                return Err(e);
            },
        }
        proof {
            assert(self.bus_log() =~= l0 + plan.take(12));
        }
        match self.set_inverted(false) {
            Ok(()) => {},
            Err(e) => {
                proof {
                    assert(self.bus_log() =~= l0 + plan.take(12));
                }
                return Err(e);
            },
        }
        proof {
            assert(self.bus_log() =~= l0 + plan.take(13));
        }
        match self.display_on() {
            Ok(()) => {},
            Err(e) => {
                proof {
                    assert(self.bus_log() =~= l0 + plan.take(13));
                }
                return Err(e);
            },
        }
        proof {
            assert(self.bus_log() =~= l0 + plan.take(14));
        }
        let ghost pre_flush = self.bus_log();
        match self.flush() {
            Ok(()) => {},
            Err(e) => {
                proof {
                    lemma_prefix_step(
                        l0,
                        pre_flush,
                        self.bus_log(),
                        plan.take(14),
                        flush_plan(self.buf@),
                    );
                    assert(plan =~= plan.take(14) + flush_plan(self.buf@));
                    assert(plan.take(plan.len() as int) =~= plan);
                    lemma_prefix_mono(
                        l0,
                        self.bus_log(),
                        plan.take(14) + flush_plan(self.buf@),
                        plan,
                    );
                }
                return Err(e);
            },
        }
        proof {
            assert(self.bus_log() =~= l0 + plan);
            lemma_prefix_full(l0, self.bus_log(), plan);
        }
        Ok(())
    }

    /// Transfers one window: column cursor, row cursor, then `nbytes` bytes
    /// of the packed buffer starting at the byte that holds pixel `(x, y)`.
    fn emit_window(&mut self, x: usize, y: usize, nbytes: usize) -> (r: Result<(), TransportError>)
        requires
            old(self).wf(),
            x < old(self).width,
            y < old(self).height,
            byte_of(pixel_index(old(self).width as int, x as int, y as int)) + nbytes <= old(
                self,
            ).buf@.len(),
        ensures
            final(self).wf(),
            fb_unchanged(old(self), final(self)),
            extends_by_prefix_of(
                old(self).bus_log(),
                final(self).bus_log(),
                window_plan(
                    old(self).buf@,
                    old(self).width as int,
                    x as int,
                    y as int,
                    nbytes as int,
                ),
            ),
            r is Ok ==> final(self).bus_log() == old(self).bus_log() + window_plan(
                old(self).buf@,
                old(self).width as int,
                x as int,
                y as int,
                nbytes as int,
            ),
    {
        let ghost l0 = self.bus_log();
        let ghost plan = window_plan(
            self.buf@,
            self.width as int,
            x as int,
            y as int,
            nbytes as int,
        );
        let idx = self.get_idx(x, y);
        let byte_idx = idx.0;
        match self.set_col_adr(#[verifier::truncate] (x as u8)) {
            Ok(()) => {},
            Err(e) => {
                proof {
                    assert(plan.take(2) =~= col_adr_plan(x as u8));
                    lemma_prefix_mono(l0, self.bus_log(), col_adr_plan(x as u8), plan);
                }
                return Err(e);
            },
        }
        match self.set_row_adr(#[verifier::truncate] (y as u8)) {
            Ok(()) => {},
            Err(e) => {
                proof {
                    assert(self.bus_log() =~= l0 + plan.take(2));
                }
                return Err(e);
            },
        }
        let data = vstd::slice::slice_subrange(self.buf.as_slice(), byte_idx, byte_idx + nbytes);
        let r = self.interface.write_data(data);
        match r {
            Ok(()) => {
                proof {
                    assert(self.bus_log() =~= l0 + plan);
                    lemma_prefix_full(l0, self.bus_log(), plan);
                }
                Ok(())
            },
            Err(e) => {
                proof {
                    assert(self.bus_log() =~= l0 + plan.take(3));
                }
                Err(e)
            },
        }
    }

    /// Synchronizes the rectangle `(x, y, width, height)` of the buffer to
    /// the device.
    ///
    /// A rectangle that starts out of bounds is a silent no-op.  Otherwise
    /// the window is widened leftward to the 2-pixel packing boundary,
    /// clamped to the device, and transferred either as one contiguous block
    /// (when it spans the full device width) or row by row.
    pub fn partial_flush(&mut self, x: usize, y: usize, width: usize, height: usize) -> (r: Result<
        (),
        TransportError,
    >)
        requires
            old(self).wf(),
            width < usize::MAX,
        ensures
            final(self).wf(),
            fb_unchanged(old(self), final(self)),
            extends_by_prefix_of(
                old(self).bus_log(),
                final(self).bus_log(),
                partial_flush_plan(
                    old(self).buf@,
                    old(self).width as int,
                    old(self).height as int,
                    x as int,
                    y as int,
                    width as int,
                    height as int,
                ),
            ),
            r is Ok ==> final(self).bus_log() == old(self).bus_log() + partial_flush_plan(
                old(self).buf@,
                old(self).width as int,
                old(self).height as int,
                x as int,
                y as int,
                width as int,
                height as int,
            ),
            x >= old(self).width || y >= old(self).height ==> r is Ok && final(self).bus_log()
                == old(self).bus_log(),
    {
        let ghost s0 = *self;
        let ghost wi = self.width as int;
        let ghost hi = self.height as int;
        let ghost plan = partial_flush_plan(
            self.buf@,
            wi,
            hi,
            x as int,
            y as int,
            width as int,
            height as int,
        );
        if x >= self.width || y >= self.height {
            proof {
                lemma_prefix_refl(self.bus_log(), plan);
                assert(self.bus_log() + plan =~= self.bus_log());
            }
            return Ok(());
        }
        let mut ax = x;
        let mut aw = width;
        let got = self.get_idx(x, y);
        let bit_idx = got.1;
        if bit_idx != 8 - PIXEL_BITS {
            proof {
                lemma_index_parity(wi, x as int, y as int);
            }
            let adjust = (8 - PIXEL_BITS - bit_idx) / PIXEL_BITS;
            ax = x - adjust;
            aw = width + adjust;
        }
        proof {
            assert(aligned_window(wi, x as int, y as int, width as int) == (
                ax as int,
                aw as int,
            ));
            lemma_index_parity(wi, ax as int, y as int);
        }
        let cw = if aw < self.width - ax {
            aw
        } else {
            self.width - ax
        };
        let ch = if height < self.height - y {
            height
        } else {
            self.height - y
        };
        let ghost l0 = s0.bus_log();
        if cw == self.width {
            proof {
                assert(ax == 0);
                lemma_full_window_fits(wi, hi, y as int, ch as int);
                vstd::arithmetic::mul::lemma_mul_nonnegative(wi, hi);
                vstd::arithmetic::mul::lemma_mul_left_inequality(wi, ch as int, hi);
                lemma_quarter_div(wi * (ch as int));
            }
            let nbytes = cw * ch * PIXEL_BITS / 8;
            proof {
                assert(plan == window_plan(s0.buf@, wi, ax as int, y as int, nbytes as int));
            }
            match self.emit_window(ax, y, nbytes) {
                Ok(()) => {},
                Err(e) => {
                    return Err(e);
                },
            }
            return Ok(());
        }
        proof {
            assert(cw < self.width);
            vstd::arithmetic::mul::lemma_mul_nonnegative(wi, hi);
            vstd::arithmetic::mul::lemma_mul_left_inequality(wi, 1, hi);
        }
        let nbytes = (cw * PIXEL_BITS + PIXEL_BITS) / 8;
        proof {
            assert(plan == row_windows_plan(
                s0.buf@,
                wi,
                ax as int,
                y as int,
                ch as int,
                nbytes as int,
            ));
        }
        let mut j: usize = 0;
        while j < ch
            invariant
                s0 == *old(self),
                x < s0.width,
                plan == partial_flush_plan(
                    s0.buf@,
                    wi,
                    hi,
                    x as int,
                    y as int,
                    width as int,
                    height as int,
                ),
                j <= ch,
                self.wf(),
                self.width == s0.width,
                self.height == s0.height,
                self.buf@ == s0.buf@,
                wi == s0.width as int,
                hi == s0.height as int,
                ax % 2 == 0,
                ax + cw <= s0.width,
                ax < s0.width,
                cw < s0.width,
                y < s0.height,
                y + ch <= s0.height,
                nbytes as int == ((cw as int) * 4 + 4) / 8,
                l0 == s0.bus_log(),
                plan == row_windows_plan(
                    s0.buf@,
                    wi,
                    ax as int,
                    y as int,
                    ch as int,
                    nbytes as int,
                ),
                self.bus_log() == l0 + row_windows_plan(
                    s0.buf@,
                    wi,
                    ax as int,
                    y as int,
                    j as int,
                    nbytes as int,
                ),
            decreases ch - j,
        {
            proof {
                lemma_window_fits(wi, hi, ax as int, (y + j) as int, cw as int);
            }
            let ghost pre = self.bus_log();
            match self.emit_window(ax, y + j, nbytes) {
                Ok(()) => {
                    proof {
                        assert(self.bus_log() =~= l0 + row_windows_plan(
                            s0.buf@,
                            wi,
                            ax as int,
                            y as int,
                            j as int + 1,
                            nbytes as int,
                        ));
                    }
                },
                Err(e) => {
                    proof {
                        lemma_prefix_step(
                            l0,
                            pre,
                            self.bus_log(),
                            row_windows_plan(
                                s0.buf@,
                                wi,
                                ax as int,
                                y as int,
                                j as int,
                                nbytes as int,
                            ),
                            window_plan(s0.buf@, wi, ax as int, (y + j) as int, nbytes as int),
                        );
                        assert(row_windows_plan(
                            s0.buf@,
                            wi,
                            ax as int,
                            y as int,
                            j as int + 1,
                            nbytes as int,
                        ) == row_windows_plan(
                            s0.buf@,
                            wi,
                            ax as int,
                            y as int,
                            j as int,
                            nbytes as int,
                        ) + window_plan(s0.buf@, wi, ax as int, y as int + j as int, nbytes as int));
                        lemma_row_windows_take(
                            s0.buf@,
                            wi,
                            ax as int,
                            y as int,
                            j as int + 1,
                            ch as int,
                            nbytes as int,
                        );
                        lemma_row_windows_len(
                            s0.buf@,
                            wi,
                            ax as int,
                            y as int,
                            j as int + 1,
                            nbytes as int,
                        );
                        lemma_row_windows_len(
                            s0.buf@,
                            wi,
                            ax as int,
                            y as int,
                            ch as int,
                            nbytes as int,
                        );
                        lemma_prefix_mono(
                            l0,
                            self.bus_log(),
                            row_windows_plan(
                                s0.buf@,
                                wi,
                                ax as int,
                                y as int,
                                j as int + 1,
                                nbytes as int,
                            ),
                            plan,
                        );
                    }
                    return Err(e);
                },
            }
            j += 1;
        }
        proof {
            lemma_prefix_full(l0, self.bus_log(), plan);
        }
        Ok(())
    }

    /// Hands the transport back, consuming the engine.
    pub fn release_interface(self) -> (r: T)
        ensures
            r == self.interface,
    {
        self.interface
    }
}

// ---------------------------------------------------------------------------
// Laws of the packed representation and the flush planning
// ---------------------------------------------------------------------------

/// Writing a pixel and reading the same pixel back yields the written value
/// quantized to its top nibble: the 4-bit round-trip.
pub proof fn lemma_pixel_round_trip(
    buf: Seq<u8>,
    width: int,
    height: int,
    x: int,
    y: int,
    v: u8,
)
    requires
        width % 2 == 0,
        0 <= x < width,
        0 <= y < height,
        buf.len() == width * height * 4 / 8,
    ensures
        stored_pixel(buf_with_pixel(buf, width, x, y, v), width, x, y) == (v & 0xf0),
{
    lemma_byte_in_buf(width, height, x, y);
    let idx = pixel_index(width, x, y);
    lemma_written_nibble(buf[byte_of(idx)], shift_of(idx), v);
}

/// Writing a pixel leaves every other pixel unchanged, in particular the
/// packing neighbor that shares its byte.
pub proof fn lemma_pixel_write_preserves_others(
    buf: Seq<u8>,
    width: int,
    height: int,
    x: int,
    y: int,
    i: int,
    j: int,
    v: u8,
)
    requires
        width % 2 == 0,
        0 <= x < width,
        0 <= y < height,
        0 <= i < width,
        0 <= j < height,
        !(i == x && j == y),
        buf.len() == width * height * 4 / 8,
    ensures
        stored_pixel(buf_with_pixel(buf, width, x, y, v), width, i, j) == stored_pixel(
            buf,
            width,
            i,
            j,
        ),
{
    let idx = pixel_index(width, x, y);
    let idx2 = pixel_index(width, i, j);
    lemma_index_injective(width, x, y, i, j);
    lemma_byte_in_buf(width, height, x, y);
    lemma_byte_in_buf(width, height, i, j);
    vstd::arithmetic::div_mod::lemma_fundamental_div_mod(idx, 2);
    vstd::arithmetic::div_mod::lemma_fundamental_div_mod(idx2, 2);
    if byte_of(idx2) == byte_of(idx) {
        lemma_other_nibble(buf[byte_of(idx)], shift_of(idx), shift_of(idx2), v);
    }
}

/// After a fill, every pixel reads back as the fill value's top nibble.
pub proof fn lemma_fill_round_trip(
    buf: Seq<u8>,
    width: int,
    height: int,
    x: int,
    y: int,
    v: u8,
)
    requires
        width % 2 == 0,
        0 <= x < width,
        0 <= y < height,
        buf.len() == width * height * 4 / 8,
        forall|k: int| 0 <= k < buf.len() ==> buf[k] == fill_byte(v),
    ensures
        stored_pixel(buf, width, x, y) == (v & 0xf0),
{
    lemma_byte_in_buf(width, height, x, y);
    lemma_fill_nibble(v, shift_of(pixel_index(width, x, y)));
}

/// A partial flush of the full surface is one contiguous transfer: a single
/// data write holding the whole packed buffer of `width * height * 4 / 8`
/// bytes, after one column and one row cursor set.
pub proof fn lemma_full_rect_single_write(buf: Seq<u8>, width: int, height: int)
    requires
        2 <= width,
        width % 2 == 0,
        1 <= height,
        buf.len() == width * height * 4 / 8,
    ensures
        ({
            let plan = partial_flush_plan(buf, width, height, 0, 0, width, height);
            &&& plan.len() == 4
            &&& plan[0] is Cmd
            &&& plan[1] is Cmd
            &&& plan[2] is Cmd
            &&& plan[3] == (BusOp::Data { payload: buf })
        }),
{
    let plan = partial_flush_plan(buf, width, height, 0, 0, width, height);
    assert(plan == window_plan(buf, width, 0, 0, width * height * 4 / 8));
    assert(buf.subrange(0, buf.len() as int) =~= buf);
}

/// A narrower-than-device rectangle is flushed row by row: four transactions
/// for each affected row, and each row's transactions are exactly one window
/// transfer (column cursor, row cursor, one data write).
pub proof fn lemma_narrow_rect_row_writes(
    buf: Seq<u8>,
    width: int,
    height: int,
    x: int,
    y: int,
    w: int,
    h: int,
)
    requires
        width % 2 == 0,
        0 <= x < width,
        0 <= y < height,
        0 <= w,
        0 <= h,
        ({
            let (ax, aw) = aligned_window(width, x, y, w);
            (if aw < width - ax {
                aw
            } else {
                width - ax
            }) != width
        }),
    ensures
        ({
            let plan = partial_flush_plan(buf, width, height, x, y, w, h);
            let (ax, aw) = aligned_window(width, x, y, w);
            let cw = if aw < width - ax {
                aw
            } else {
                width - ax
            };
            let ch = if h < height - y {
                h
            } else {
                height - y
            };
            let nbytes = (cw * 4 + 4) / 8;
            &&& plan.len() == 4 * ch
            &&& forall|r: int|
                0 <= r < ch ==> #[trigger] plan.subrange(4 * r, 4 * r + 4) == window_plan(
                    buf,
                    width,
                    ax,
                    y + r,
                    nbytes,
                )
        }),
{
    let plan = partial_flush_plan(buf, width, height, x, y, w, h);
    let (ax, aw) = aligned_window(width, x, y, w);
    let cw = if aw < width - ax {
        aw
    } else {
        width - ax
    };
    let ch = if h < height - y {
        h
    } else {
        height - y
    };
    let nbytes = (cw * 4 + 4) / 8;
    assert(plan == row_windows_plan(buf, width, ax, y, ch, nbytes));
    lemma_row_windows_len(buf, width, ax, y, ch, nbytes);
    assert forall|r: int| 0 <= r < ch implies #[trigger] plan.subrange(4 * r, 4 * r + 4)
        == window_plan(buf, width, ax, y + r, nbytes) by {
        lemma_row_windows_take(buf, width, ax, y, r + 1, ch, nbytes);
        lemma_row_windows_len(buf, width, ax, y, r, nbytes);
        let rw1 = row_windows_plan(buf, width, ax, y, r + 1, nbytes);
        let rw0 = row_windows_plan(buf, width, ax, y, r, nbytes);
        let wp = window_plan(buf, width, ax, y + r, nbytes);
        assert(rw1 == rw0 + wp);
        assert(plan.take(4 * r + 4) == rw1);
        assert forall|i: int| 0 <= i < 4 implies plan[4 * r + i] == wp[i] by {
            assert(plan[4 * r + i] == plan.take(4 * r + 4)[4 * r + i]);
            assert((rw0 + wp)[4 * r + i] == wp[i]);
        }
        assert(plan.subrange(4 * r, 4 * r + 4) =~= wp);
    }
}

/// When the requested `x` is off the 2-pixel packing boundary, the window
/// that is actually transferred starts one pixel earlier on the boundary and
/// is exactly that one pixel wider, and the requested pixels all lie inside
/// it.
pub proof fn lemma_alignment_widens_leftward(width: int, x: int, y: int, w: int)
    requires
        width % 2 == 0,
        width >= 0,
        0 <= x,
        0 <= y,
        x % 2 == 1,
    ensures
        ({
            let (ax, aw) = aligned_window(width, x, y, w);
            &&& ax == x - 1
            &&& ax % 2 == 0
            &&& aw == w + 1
            &&& x - ax == aw - w
            &&& ax <= x
            &&& x + w <= ax + aw
        }),
{
    lemma_index_parity(width, x, y);
}

// ---------------------------------------------------------------------------
// The framebuffer surface of the device
// ---------------------------------------------------------------------------

impl<T: Sh1122Interface> Framebuffer for Sh1122Device<T> {
    open spec fn fb_width(&self) -> int {
        self.width as int
    }

    open spec fn fb_height(&self) -> int {
        self.height as int
    }

    open spec fn fb_valid(&self) -> bool {
        self.wf()
    }

    open spec fn pixel_at(&self, x: int, y: int) -> u8 {
        stored_pixel(self.buf@, self.width as int, x, y)
    }

    open spec fn same_except_pixels(&self, other: &Self) -> bool {
        &&& self.width == other.width
        &&& self.height == other.height
        &&& self.interface == other.interface
    }

    fn get_width(&self) -> (r: usize) {
        self.width
    }

    fn get_height(&self) -> (r: usize) {
        self.height
    }

    fn get_pixel(&self, x: usize, y: usize) -> (r: u8) {
        let idx = self.get_idx(x, y);
        let byte = self.buf[idx.0];
        let dat = (byte & (PIXEL_MASK << idx.1)) >> idx.1;
        proof {
            lemma_mask_extract(byte, idx.1);
        }
        dat << PIXEL_SHIFT
    }

    fn set_pixel(&mut self, x: usize, y: usize, pixel: u8) {
        let ghost s0 = *self;
        let ghost wi = self.width as int;
        let ghost hi = self.height as int;
        let idx = self.get_idx(x, y);
        let byte_idx = idx.0;
        let bit_idx = idx.1;
        let mask = PIXEL_MASK << bit_idx;
        let byte = (self.buf[byte_idx] & !mask) | ((pixel >> PIXEL_SHIFT) << bit_idx);
        self.buf[byte_idx] = byte;
        proof {
            assert(self.buf@ =~= buf_with_pixel(s0.buf@, wi, x as int, y as int, pixel));
            lemma_pixel_round_trip(s0.buf@, wi, hi, x as int, y as int, pixel);
            assert forall|i: int, j: int|
                0 <= i < wi && 0 <= j < hi && !(i == x as int && j == y as int) implies #[trigger] self.pixel_at(
                i,
                j,
            ) == s0.pixel_at(i, j) by {
                lemma_pixel_write_preserves_others(s0.buf@, wi, hi, x as int, y as int, i, j, pixel);
            }
        }
    }

    fn fill(&mut self, pixel: u8) {
        let ghost s0 = *self;
        let ghost wi = self.width as int;
        let ghost hi = self.height as int;
        let dat = ((pixel >> PIXEL_SHIFT) << PIXEL_SHIFT) | (pixel >> PIXEL_SHIFT);
        let n = self.buf.len();
        let mut i: usize = 0;
        while i < n
            invariant
                s0 == *old(self),
                i <= n,
                n == self.buf@.len(),
                self.width == s0.width,
                self.height == s0.height,
                self.interface == s0.interface,
                self.wf(),
                dat == fill_byte(pixel),
                forall|k: int| 0 <= k < i ==> self.buf@[k] == fill_byte(pixel),
            decreases n - i,
        {
            self.buf[i] = dat;
            i += 1;
        }
        proof {
            assert forall|a: int, b: int| 0 <= a < wi && 0 <= b < hi implies #[trigger] self.pixel_at(
                a,
                b,
            ) == (pixel & 0xf0) by {
                lemma_fill_round_trip(self.buf@, wi, hi, a, b, pixel);
            }
        }
    }

    fn partial_fill(&mut self, x: usize, y: usize, width: usize, height: usize, pixel: u8) {
        let ghost s0 = *self;
        let ghost wi = self.width as int;
        let ghost hi = self.height as int;
        let mut j: usize = 0;
        while j < height
            invariant
                s0 == *old(self),
                j <= height,
                x + width <= s0.width,
                y + height <= s0.height,
                self.width == s0.width,
                self.height == s0.height,
                self.interface == s0.interface,
                self.wf(),
                wi == s0.width as int,
                hi == s0.height as int,
                forall|a: int, b: int|
                    x <= a < x + width && y <= b < y + j ==> #[trigger] self.pixel_at(a, b) == (
                    pixel & 0xf0),
                forall|a: int, b: int|
                    0 <= a < wi && 0 <= b < hi && !(x <= a < x + width && y <= b < y + j)
                        ==> #[trigger] self.pixel_at(a, b) == s0.pixel_at(a, b),
            decreases height - j,
        {
            let mut i: usize = 0;
            while i < width
                invariant
                    s0 == *old(self),
                    i <= width,
                    j < height,
                    x + width <= s0.width,
                    y + height <= s0.height,
                    self.width == s0.width,
                    self.height == s0.height,
                    self.interface == s0.interface,
                    self.wf(),
                    wi == s0.width as int,
                    hi == s0.height as int,
                    forall|a: int, b: int|
                        x <= a < x + width && y <= b < y + j ==> #[trigger] self.pixel_at(a, b)
                            == (pixel & 0xf0),
                    forall|a: int, b: int|
                        x <= a < x + i && b == y + j ==> #[trigger] self.pixel_at(a, b) == (pixel
                            & 0xf0),
                    forall|a: int, b: int|
                        0 <= a < wi && 0 <= b < hi && !(x <= a < x + width && y <= b < y + j) && !(
                        x <= a < x + i && b == y + j) ==> #[trigger] self.pixel_at(a, b)
                            == s0.pixel_at(a, b),
                decreases width - i,
            {
                self.set_pixel(x + i, y + j, pixel);
                i += 1;
            }
            j += 1;
        }
    }
}

} // verus!
