//! Log sequence numbers.
use crate::bin_ser::{be_digits, be_value, read_u64, write_u64};
use crate::error::LayerError;
use crate::hex::{append_hex, hex_decode, hex_encode, is_hex_text, parse_hex};
use vstd::prelude::*;

verus! {

/// A logical timestamp. Later changes have larger numbers.
#[derive(Clone, Copy, Debug, PartialEq, Eq, PartialOrd, Ord, Hash, Structural)]
pub struct Lsn(pub u64);

impl Lsn {
    /// The number as 16 upper-case hexadecimal digits.
    pub fn to_hex(&self) -> (text: String)
        ensures
            text@ == hex_encode(be_digits(self.0 as nat, 8), true),
    {
        let mut raw: Vec<u8> = Vec::new();
        write_u64(&mut raw, self.0);
        let mut text = String::new();
        append_hex(&mut text, raw.as_slice(), true);
        assert(raw@ =~= be_digits(self.0 as nat, 8));
        assert(text@ =~= hex_encode(be_digits(self.0 as nat, 8), true));
        text
    }

    /// Reads a number from 16 hexadecimal digits of either case.
    pub fn from_hex(text: &str) -> (r: Result<Lsn, LayerError>)
        ensures
            r matches Ok(lsn) ==> text@.len() == 16 && is_hex_text(text@) && lsn.0 as nat
                == be_value(hex_decode(text@)),
            r matches Err(e) ==> e == LayerError::Parse && !(text@.len() == 16 && is_hex_text(
                text@,
            )),
    {
        match parse_hex(text) {
            Some(bytes) => {
                if bytes.len() == 8 {
                    let v = read_u64(bytes.as_slice(), 0);
                    assert(bytes@.subrange(0, 8) =~= bytes@);
                    Ok(Lsn(v))
                } else {
                    Err(LayerError::Parse)
                }
            },
            None => Err(LayerError::Parse),
        }
    }
}

} // verus!
