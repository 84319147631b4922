//! The network-tree vocabulary of the recogniser model file: the image input
//! shape, the reorientation wrappers, the load error, and the little-endian
//! field reader the tree loader walks the model bytes with.
use vstd::prelude::*;

verus! {

/// `NF_LAYER_SPECIFIC_LR`: the network flag marking training-side per-layer
/// learning rates stored after a plumbing node's children.
pub const NF_LAYER_SPECIFIC_LR: i32 = 64;

/// `TF_COMPRESS_UNICHARSET`: the recogniser's training-flag bit saying that a
/// recoder is present (recoding on) rather than a pass-through identity codec.
pub const TF_COMPRESS_UNICHARSET: i32 = 64;

/// The image-input shape (`StaticShape`, five `i32` on the wire).
#[derive(Debug, Clone, Copy, PartialEq, Eq, Structural)]
pub struct InputShape {
    /// Batch size (usually 1).
    pub batch: i32,
    /// Target height (0 = variable).
    pub height: i32,
    /// Target width (0 = variable).
    pub width: i32,
    /// Depth / channels.
    pub depth: i32,
    /// `LossType` discriminant (carried, unused at inference).
    pub loss_type: i32,
}

/// How a reversing wrapper reorients the grid around its child.
#[derive(Debug, Clone, Copy, PartialEq, Eq, Structural)]
pub enum ReverseKind {
    /// `NT_XREVERSED`: mirror along x.
    X,
    /// `NT_YREVERSED`: mirror along y.
    Y,
    /// `NT_XYTRANSPOSE`: swap x and y.
    Txy,
}

/// A failure loading or running the network tree.
#[derive(Debug, Clone, PartialEq, Eq)]
pub enum NetError {
    /// The byte stream ended mid-field.
    UnexpectedEof,
    /// A header failed to parse (the parser's error text).
    BadHeader(String),
    /// A node type the inference walk does not support.
    Unsupported(&'static str),
    /// A layer payload failed to parse.
    BadPayload(String),
    /// A forward-pass shape or mode violation.
    Forward(&'static str),
}

impl NetError {
    /// The human-readable message of the error.
    pub fn message(&self) -> (s: String)
        ensures
            s@ == match self {
                NetError::UnexpectedEof => "network stream ended mid-field"@,
                NetError::BadHeader(e) => "bad node header: "@ + e@,
                NetError::Unsupported(w) => "unsupported network feature: "@ + w@,
                NetError::BadPayload(e) => "bad node payload: "@ + e@,
                NetError::Forward(w) => "forward error: "@ + w@,
            },
    {
        match self {
            NetError::UnexpectedEof => String::from_str("network stream ended mid-field"),
            NetError::BadHeader(e) => {
                let mut s = String::from_str("bad node header: ");
                s.append(e.as_str());
                s
            },
            NetError::Unsupported(w) => {
                let mut s = String::from_str("unsupported network feature: ");
                s.append(w);
                s
            },
            NetError::BadPayload(e) => {
                let mut s = String::from_str("bad node payload: ");
                s.append(e.as_str());
                s
            },
            NetError::Forward(w) => {
                let mut s = String::from_str("forward error: ");
                s.append(w);
                s
            },
        }
    }
}

/// The unsigned little-endian value of four bytes.
pub open spec fn le_u32(b: Seq<u8>) -> int {
    b[0] + 256 * b[1] + 65536 * b[2] + 16777216 * b[3]
}

/// The two's-complement reading of a 32-bit unsigned value.
pub open spec fn as_i32(v: int) -> int {
    if v < 0x8000_0000 { v } else { v - 0x1_0000_0000 }
}

/// A read position in a byte stream.
pub struct Cursor<'a> {
    /// The whole stream.
    pub bytes: &'a [u8],
    /// The next byte to read.
    pub pos: usize,
}

impl<'a> Cursor<'a> {
    /// Take the next `n` bytes: `Err(UnexpectedEof)`, with the position
    /// unchanged, when fewer than `n` remain.
    pub fn take(&mut self, n: usize) -> (r: Result<&'a [u8], NetError>)
        ensures
            final(self).bytes@ == old(self).bytes@,
            old(self).pos + n <= old(self).bytes@.len() ==> {
                &&& r matches Ok(s) && s@ == old(self).bytes@.subrange(old(self).pos as int, old(self).pos + n)
                &&& final(self).pos == old(self).pos + n
            },
            old(self).pos + n > old(self).bytes@.len() ==> r == Err::<&'a [u8], NetError>(NetError::UnexpectedEof) && final(self).pos
                == old(self).pos,
    {
        proof {
            assert(self.bytes@.len() == self.bytes.len());
        }
        let end = match self.pos.checked_add(n) {
            Some(e) => e,
            None => return Err(NetError::UnexpectedEof),
        };
        if end > self.bytes.len() {
            return Err(NetError::UnexpectedEof);
        }
        let s = vstd::slice::slice_subrange(self.bytes, self.pos, end);
        self.pos = end;
        Ok(s)
    }

    /// Read a little-endian `u32`.
    pub fn u32(&mut self) -> (r: Result<u32, NetError>)
        ensures
            final(self).bytes@ == old(self).bytes@,
            old(self).pos + 4 <= old(self).bytes@.len() ==> {
                &&& r matches Ok(v) && v == le_u32(old(self).bytes@.subrange(old(self).pos as int, old(self).pos + 4))
                &&& final(self).pos == old(self).pos + 4
            },
            old(self).pos + 4 > old(self).bytes@.len() ==> r == Err::<u32, NetError>(NetError::UnexpectedEof) && final(self).pos == old(
                self,
            ).pos,
    {
        let s = match self.take(4) {
            Ok(s) => s,
            Err(e) => return Err(e),
        };
        let v: u32 = s[0] as u32 + 256 * (s[1] as u32) + 65536 * (s[2] as u32) + 16777216 * (s[3] as u32);
        Ok(v)
    }

    /// Read a little-endian two's-complement `i32`.
    pub fn i32(&mut self) -> (r: Result<i32, NetError>)
        ensures
            final(self).bytes@ == old(self).bytes@,
            old(self).pos + 4 <= old(self).bytes@.len() ==> {
                &&& r matches Ok(v) && v == as_i32(le_u32(old(self).bytes@.subrange(old(self).pos as int, old(self).pos + 4)))
                &&& final(self).pos == old(self).pos + 4
            },
            old(self).pos + 4 > old(self).bytes@.len() ==> r == Err::<i32, NetError>(NetError::UnexpectedEof) && final(self).pos == old(
                self,
            ).pos,
    {
        let v = match self.u32() {
            Ok(v) => v,
            Err(e) => return Err(e),
        };
        let r: i32 = if v < 0x8000_0000 {
            v as i32
        } else {
            (v - 0x8000_0000) as i32 - 0x4000_0000 - 0x4000_0000
        };
        Ok(r)
    }
}

/// Read past the per-layer learning rates a plumbing node stores after its
/// children when `NF_LAYER_SPECIFIC_LR` is set: a `u32` count and that many
/// four-byte values.
pub fn skip_layer_lr(cur: &mut Cursor, network_flags: i32) -> (r: Result<(), NetError>)
    ensures
        final(cur).bytes@ == old(cur).bytes@,
        network_flags & NF_LAYER_SPECIFIC_LR == 0 ==> r is Ok && final(cur).pos == old(cur).pos,
        network_flags & NF_LAYER_SPECIFIC_LR != 0 ==> {
            let len = old(cur).bytes@.len();
            let p = old(cur).pos as int;
            if p + 4 > len {
                r == Err::<(), NetError>(NetError::UnexpectedEof)
            } else {
                let count = le_u32(old(cur).bytes@.subrange(p, p + 4));
                if count * 4 > usize::MAX || p + 4 + count * 4 > len {
                    r == Err::<(), NetError>(NetError::UnexpectedEof)
                } else {
                    r is Ok && final(cur).pos == p + 4 + count * 4
                }
            }
        },
{
    if network_flags & NF_LAYER_SPECIFIC_LR != 0 {
        let count = match cur.u32() {
            Ok(c) => c,
            Err(e) => return Err(e),
        };
        let bytes = match (count as usize).checked_mul(4) {
            Some(b) => b,
            None => return Err(NetError::UnexpectedEof),
        };
        match cur.take(bytes) {
            Ok(_) => {},
            Err(e) => return Err(e),
        }
    }
    Ok(())
}

} // verus!
