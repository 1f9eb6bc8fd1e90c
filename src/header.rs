use crate::cursor::{le16, ByteCursor};
use crate::error::DecodeError;
use vstd::prelude::*;

verus! {

/// The connectivity coding the container uses.
#[derive(Debug, Clone, Copy, PartialEq, Eq, Structural)]
pub enum EncoderMethod {
    MeshSequential,
    MeshEdgebreaker,
}

/// The method a tag byte names, if any.
pub open spec fn method_of(value: u8) -> Option<EncoderMethod> {
    if value == 0 {
        Some(EncoderMethod::MeshSequential)
    } else if value == 1 {
        Some(EncoderMethod::MeshEdgebreaker)
    } else {
        None
    }
}

impl EncoderMethod {
    pub fn parse(value: u8) -> (r: Option<EncoderMethod>)
        ensures
            r == method_of(value),
    {
        match value {
            0 => Some(EncoderMethod::MeshSequential),
            1 => Some(EncoderMethod::MeshEdgebreaker),
            _ => None,
        }
    }
}

/// The fixed prefix of a container.
#[derive(Debug, Clone, Copy, PartialEq, Eq, Structural)]
pub struct Header {
    pub major_version: u8,
    pub minor_version: u8,
    pub encoder_type: u8,
    pub encoder_method: EncoderMethod,
    pub flags: u16,
}

/// The five-byte signature `DRACO`.
pub open spec fn magic() -> Seq<u8> {
    seq![68u8, 82u8, 65u8, 67u8, 79u8]
}

/// The header that the first bytes of `s` hold, if they hold a valid one.
pub open spec fn header_of(s: Seq<u8>) -> Option<Header> {
    if s.len() >= 11 && s.subrange(0, 5) == magic() && method_of(s[8]) is Some {
        Some(
            Header {
                major_version: s[5],
                minor_version: s[6],
                encoder_type: s[7],
                encoder_method: method_of(s[8])->Some_0,
                flags: le16(s[9], s[10]) as u16,
            },
        )
    } else {
        None
    }
}

impl Header {
    pub const LENGTH: usize = 11;

    /// Reads the container header: `Truncated` when fewer than eleven bytes remain,
    /// `InvalidHeader` on a wrong signature or an unknown method byte.
    pub fn parse(cur: &mut ByteCursor) -> (r: Result<Header, DecodeError>)
        requires
            old(cur).wf(),
        ensures
            final(cur).wf(),
            old(cur).rest().len() < 11 ==> r == Err::<Header, DecodeError>(DecodeError::Truncated),
            old(cur).rest().len() >= 11 && header_of(old(cur).rest()) is None ==> r == Err::<
                Header,
                DecodeError,
            >(DecodeError::InvalidHeader),
            header_of(old(cur).rest()) matches Some(h) ==> r == Ok::<Header, DecodeError>(h)
                && final(cur).rest() == old(cur).rest().skip(11),
    {
        let ghost s = cur.rest();
        if cur.remaining_len() < Header::LENGTH {
            return Err(DecodeError::Truncated);
        }
        let m0 = cur.read_u8()?;
        let m1 = cur.read_u8()?;
        let m2 = cur.read_u8()?;
        let m3 = cur.read_u8()?;
        let m4 = cur.read_u8()?;
        let major_version = cur.read_u8()?;
        let minor_version = cur.read_u8()?;
        let encoder_type = cur.read_u8()?;
        let method = cur.read_u8()?;
        let flags = cur.read_u16_le()?;
        proof {
            assert(s.subrange(0, 5) =~= seq![m0, m1, m2, m3, m4]);
            assert(cur.rest() =~= s.skip(11));
        }
        if m0 != 68 || m1 != 82 || m2 != 65 || m3 != 67 || m4 != 79 {
            proof {
                let t = seq![m0, m1, m2, m3, m4];
                assert(t[0] == m0 && t[1] == m1 && t[2] == m2 && t[3] == m3 && t[4] == m4);
                assert(magic()[0] == 68 && magic()[1] == 82 && magic()[2] == 65);
                assert(magic()[3] == 67 && magic()[4] == 79);
            }
            return Err(DecodeError::InvalidHeader);
        }
        assert(seq![m0, m1, m2, m3, m4] =~= magic());
        match EncoderMethod::parse(method) {
            Some(encoder_method) => Ok(
                Header { major_version, minor_version, encoder_type, encoder_method, flags },
            ),
            None => Err(DecodeError::InvalidHeader),
        }
    }
}

} // verus!
