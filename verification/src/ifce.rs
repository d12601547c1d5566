//! The two capabilities the driver is built around: the bus transport
//! (`Sh1122Interface`) and the pixel-level framebuffer surface
//! (`Framebuffer`).
//!
//! A transport is modeled by the ghost history of the transactions it has
//! carried (`BusOp`), oldest first.  Every device operation that talks to the
//! hardware is specified by how it extends that history.

use vstd::prelude::*;

verus! {

/// A failure reported by the bus transport behind an `Sh1122Interface`.
///
/// The driver never retries: it hands the failure back to the caller
/// unchanged.
#[derive(Clone, Copy, PartialEq, Eq, Structural, Debug)]
pub struct TransportError;

/// One logical bus transaction, as it appears in a transport's ghost history.
pub enum BusOp {
    /// A command opcode followed by zero or more payload bytes.
    Cmd { opcode: u8, payload: Seq<u8> },
    /// A raw data payload without an opcode.
    Data { payload: Seq<u8> },
}

/// `after` equals `before` extended by some leading part of `planned`.
///
/// This is how a device operation describes its bus traffic when a transport
/// failure may cut the planned transaction sequence short: whatever happened,
/// the history grew by a prefix of the plan and by nothing else.
pub open spec fn extends_by_prefix_of(
    before: Seq<BusOp>,
    after: Seq<BusOp>,
    planned: Seq<BusOp>,
) -> bool {
    &&& before.len() <= after.len() <= before.len() + planned.len()
    &&& after == before + planned.take(after.len() - before.len())
}

/// The bus transport capability: the one way the driver reaches the device.
///
/// Implementors adapt a concrete bus (for instance an I2C peripheral).  The
/// contract is phrased over the ghost transaction history `log`: a successful
/// write appends exactly its transaction, a failed one appends nothing.
pub trait Sh1122Interface: Sized {
    /// The transactions the transport has carried so far, oldest first.
    ///
    /// The default history is empty; a transport whose traffic the driver's
    /// contracts should describe overrides it (unverified adapters outside
    /// this crate need not).
    open spec fn log(&self) -> Seq<BusOp> {
        Seq::empty()
    }

    /// Send one command opcode plus payload as a single transaction.
    fn write_cmd(&mut self, cmd: u8, data: &[u8]) -> (r: Result<(), TransportError>)
        ensures
            r is Ok ==> final(self).log() == old(self).log().push(
                (BusOp::Cmd { opcode: cmd, payload: data@ }),
            ),
            r is Err ==> final(self).log() == old(self).log(),
    ;

    /// Send a raw data payload as a single transaction.
    fn write_data(&mut self, data: &[u8]) -> (r: Result<(), TransportError>)
        ensures
            r is Ok ==> final(self).log() == old(self).log().push(
                (BusOp::Data { payload: data@ }),
            ),
            r is Err ==> final(self).log() == old(self).log(),
    ;
}

/// A surface of 8-bit intensity pixels with in-memory mutation only.
///
/// Reads and writes are specified against the abstract pixel map `pixel_at`;
/// an implementation quantizes stored values, so a written value is read back
/// with its low 4 bits cleared.  Mutating pixels touches nothing outside the
/// pixel contents (`same_except_pixels`).
pub trait Framebuffer: Sized {
    /// Width of the surface in pixels.
    spec fn fb_width(&self) -> int;

    /// Height of the surface in pixels.
    spec fn fb_height(&self) -> int;

    /// Well-formedness of the surface's representation.
    spec fn fb_valid(&self) -> bool;

    /// The stored value of pixel `(x, y)`, already mapped back to the 8-bit
    /// value space.
    spec fn pixel_at(&self, x: int, y: int) -> u8;

    /// The two values agree on everything except the pixel contents.
    spec fn same_except_pixels(&self, other: &Self) -> bool;

    fn get_width(&self) -> (r: usize)
        ensures
            r == self.fb_width(),
    ;

    fn get_height(&self) -> (r: usize)
        ensures
            r == self.fb_height(),
    ;

    fn get_pixel(&self, x: usize, y: usize) -> (r: u8)
        requires
            self.fb_valid(),
            x < self.fb_width(),
            y < self.fb_height(),
        ensures
            r == self.pixel_at(x as int, y as int),
    ;

    fn set_pixel(&mut self, x: usize, y: usize, pixel: u8)
        requires
            old(self).fb_valid(),
            x < old(self).fb_width(),
            y < old(self).fb_height(),
        ensures
            final(self).fb_valid(),
            old(self).same_except_pixels(final(self)),
            final(self).fb_width() == old(self).fb_width(),
            final(self).fb_height() == old(self).fb_height(),
            final(self).pixel_at(x as int, y as int) == pixel & 0xf0,
            forall|i: int, j: int|
                0 <= i < old(self).fb_width() && 0 <= j < old(self).fb_height()
                    && !(i == x as int && j == y as int)
                    ==> #[trigger] final(self).pixel_at(i, j) == old(self).pixel_at(i, j),
    ;

    fn fill(&mut self, pixel: u8)
        requires
            old(self).fb_valid(),
        ensures
            final(self).fb_valid(),
            old(self).same_except_pixels(final(self)),
            final(self).fb_width() == old(self).fb_width(),
            final(self).fb_height() == old(self).fb_height(),
            forall|i: int, j: int|
                0 <= i < old(self).fb_width() && 0 <= j < old(self).fb_height()
                    ==> #[trigger] final(self).pixel_at(i, j) == pixel & 0xf0,
    ;

    fn partial_fill(&mut self, x: usize, y: usize, width: usize, height: usize, pixel: u8)
        requires
            old(self).fb_valid(),
            x + width <= old(self).fb_width(),
            y + height <= old(self).fb_height(),
        ensures
            final(self).fb_valid(),
            old(self).same_except_pixels(final(self)),
            final(self).fb_width() == old(self).fb_width(),
            final(self).fb_height() == old(self).fb_height(),
            forall|i: int, j: int|
                x <= i < x + width && y <= j < y + height
                    ==> #[trigger] final(self).pixel_at(i, j) == pixel & 0xf0,
            forall|i: int, j: int|
                0 <= i < old(self).fb_width() && 0 <= j < old(self).fb_height()
                    && !(x <= i < x + width && y <= j < y + height)
                    ==> #[trigger] final(self).pixel_at(i, j) == old(self).pixel_at(i, j),
    ;
}

} // verus!
