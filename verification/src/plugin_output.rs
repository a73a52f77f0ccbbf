//! Capped capture of a plugin process's output.

use vstd::prelude::*;
use crate::text::{decimal, u64_to_decimal};

verus! {

/// The bytes kept of an output stream, and whether any were cut off.
#[derive(Debug, Clone, Default)]
pub struct BoundedOutput {
    pub bytes: Vec<u8>,
    pub truncated: bool,
}

/// The text of `bytes` read as UTF-8, with each invalid sequence replaced
/// by U+FFFD.
pub uninterp spec fn utf8_lossy(bytes: Seq<u8>) -> Seq<char>;

/// `String::from_utf8_lossy`: the text is a function of the bytes alone.
#[verifier::external_body]
fn lossy_string(bytes: &[u8]) -> (r: String)
    ensures
        r@ == utf8_lossy(bytes@),
{
    String::from_utf8_lossy(bytes).into_owned()
}

/// How many more bytes fit below `cap` after `kept` bytes.
pub open spec fn room(cap: usize, kept: int) -> int {
    if cap >= kept {
        cap - kept
    } else {
        0
    }
}

/// The note appended to a truncated log.
pub open spec fn truncation_note(cap: usize) -> Seq<char> {
    "\n[herdr truncated plugin output after "@ + decimal(cap as nat) + " bytes]"@
}

impl BoundedOutput {
    /// Keep as much of `bytes` as fits below `cap`; remember when some did not fit.
    pub fn append(&mut self, bytes: &[u8], cap: usize)
        ensures
            final(self).bytes@ == old(self).bytes@ + bytes@.take(
                if bytes@.len() <= room(cap, old(self).bytes@.len() as int) {
                    bytes@.len() as int
                } else {
                    room(cap, old(self).bytes@.len() as int)
                },
            ),
            final(self).truncated == (old(self).truncated || bytes@.len() > room(
                cap,
                old(self).bytes@.len() as int,
            )),
    {
        let remaining = cap.saturating_sub(self.bytes.len());
        let take = if bytes.len() <= remaining {
            bytes.len()
        } else {
            remaining
        };
        let ghost start = self.bytes@;
        let mut i: usize = 0;
        while i < take
            invariant
                take <= bytes@.len(),
                0 <= i <= take,
                self.bytes@ == start + bytes@.take(i as int),
                self.truncated == old(self).truncated,
            decreases take - i,
        {
            self.bytes.push(bytes[i]);
            assert(bytes@.take(i + 1) =~= bytes@.take(i as int).push(bytes@[i as int]));
            i = i + 1;
        }
        self.truncated = self.truncated || bytes.len() > remaining;
    }

    /// The kept bytes as text, followed by a note when output was cut off.
    pub fn log_string(&self, cap: usize) -> (r: String)
        ensures
            r@ == utf8_lossy(self.bytes@) + if self.truncated {
                truncation_note(cap)
            } else {
                Seq::<char>::empty()
            },
    {
        let mut output = lossy_string(self.bytes.as_slice());
        if self.truncated {
            output.append("\n[herdr truncated plugin output after ");
            let digits = u64_to_decimal(cap as u64);
            output.append(digits.as_str());
            output.append(" bytes]");
        } else {
            assert(output@ =~= output@ + Seq::<char>::empty());
        }
        output
    }
}

} // verus!
