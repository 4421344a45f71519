//! The 60-byte entry header: its layout, decoding and encoding.
use vstd::prelude::*;
use crate::field::{
    copy_range, digits_of, lemma_decimal_round_trip, pad_field, parse_decimal,
    parse_decimal_spec, push_digits, push_padded,
};

verus! {

/// Bytes in an entry header.
pub const HEADER_LEN: usize = 60;

/// Bytes in the archive signature.
pub const SIGNATURE_LEN: usize = 8;

/// The byte that follows a payload of odd length.
pub const PAD: u8 = 0x0A;

/// Widest name a header can hold.
pub const NAME_WIDTH: usize = 16;

/// `!<arch>\n`, which opens every archive.
pub open spec fn signature_spec() -> Seq<u8> {
    seq![0x21u8, 0x3Cu8, 0x61u8, 0x72u8, 0x63u8, 0x68u8, 0x3Eu8, 0x0Au8]
}

/// `` `\n ``, which closes every header.
pub open spec fn end_marker_spec() -> Seq<u8> {
    seq![0x60u8, 0x0Au8]
}

/// Why an archive cannot be read or written.
#[derive(Debug, Clone, Copy, PartialEq, Eq, Structural)]
pub enum ArError {
    /// The first eight bytes are not the signature.
    SignatureMismatch,
    /// A header does not end with the end marker.
    EndMarkerMismatch,
    /// A header's size field is not a non-negative decimal number.
    SizeFieldUnparsable,
    /// A member name does not fit in its sixteen bytes.
    NameTooLong,
    /// A permission mode has more than eight octal digits.
    ModeTooLarge,
    /// A payload length has more than ten decimal digits.
    SizeTooLarge,
}

/// One member's header as found in an archive. The text fields hold the raw
/// bytes of their fixed-width fields, padding included.
#[derive(Debug)]
pub struct ArFile {
    pub name: Vec<u8>,
    pub timestamp: Vec<u8>,
    pub owner: Vec<u8>,
    pub group: Vec<u8>,
    pub mode: Vec<u8>,
    pub size: i64,
    /// Position in the archive of the first payload byte.
    pub offset: u64,
}

/// What an `ArFile` holds, as mathematical values.
pub struct EntryView {
    pub name: Seq<u8>,
    pub timestamp: Seq<u8>,
    pub owner: Seq<u8>,
    pub group: Seq<u8>,
    pub mode: Seq<u8>,
    pub size: int,
    pub offset: int,
}

impl View for ArFile {
    type V = EntryView;

    open spec fn view(&self) -> EntryView {
        EntryView {
            name: self.name@,
            timestamp: self.timestamp@,
            owner: self.owner@,
            group: self.group@,
            mode: self.mode@,
            size: self.size as int,
            offset: self.offset as int,
        }
    }
}

pub open spec fn entry_result_view(r: Result<ArFile, ArError>) -> Result<EntryView, ArError> {
    match r {
        Ok(f) => Ok(f@),
        Err(e) => Err(e),
    }
}

/// The entry that the 60 header bytes `h` describe, its payload starting at
/// `offset`: the fields at their fixed places, the end marker checked first,
/// then the size field read as a decimal number.
pub open spec fn decode_spec(h: Seq<u8>, offset: int) -> Result<EntryView, ArError> {
    if h.subrange(58, 60) != end_marker_spec() {
        Err(ArError::EndMarkerMismatch)
    } else {
        match parse_decimal_spec(h.subrange(48, 58)) {
            None => Err(ArError::SizeFieldUnparsable),
            Some(n) => Ok(
                EntryView {
                    name: h.subrange(0, 16),
                    timestamp: h.subrange(16, 28),
                    owner: h.subrange(28, 34),
                    group: h.subrange(34, 40),
                    mode: h.subrange(40, 48),
                    size: n as int,
                    offset,
                },
            ),
        }
    }
}

/// The single digit `0`, written in the fields this format leaves unused.
pub open spec fn zero_digit() -> Seq<u8> {
    seq![0x30u8]
}

/// Whether a header can hold `name`, `mode` and `size`.
pub open spec fn fits_header(name: Seq<u8>, mode: nat, size: nat) -> bool {
    name.len() <= 16 && digits_of(mode, 8).len() <= 8 && digits_of(size, 10).len() <= 10
}

/// The header for a member: the name, a zero timestamp, owner and group, the
/// mode in octal and the size in decimal, each left-justified in its field,
/// then the end marker.
pub open spec fn header_bytes(name: Seq<u8>, mode: nat, size: nat) -> Seq<u8> {
    pad_field(name, 16) + pad_field(zero_digit(), 12) + pad_field(zero_digit(), 6) + pad_field(
        zero_digit(),
        6,
    ) + pad_field(digits_of(mode, 8), 8) + pad_field(digits_of(size, 10), 10)
        + end_marker_spec()
}

/// Encoding a header: the first field that does not fit is the error.
pub open spec fn encode_spec(name: Seq<u8>, mode: nat, size: nat) -> Result<Seq<u8>, ArError> {
    if name.len() > 16 {
        Err(ArError::NameTooLong)
    } else if digits_of(mode, 8).len() > 8 {
        Err(ArError::ModeTooLarge)
    } else if digits_of(size, 10).len() > 10 {
        Err(ArError::SizeTooLarge)
    } else {
        Ok(header_bytes(name, mode, size))
    }
}

/// The entry that a header made from `name`, `mode` and `size` reads back as.
pub open spec fn encoded_entry(name: Seq<u8>, mode: nat, size: nat, offset: int) -> EntryView {
    EntryView {
        name: pad_field(name, 16),
        timestamp: pad_field(zero_digit(), 12),
        owner: pad_field(zero_digit(), 6),
        group: pad_field(zero_digit(), 6),
        mode: pad_field(digits_of(mode, 8), 8),
        size: size as int,
        offset,
    }
}

/// Decodes the header at `data[pos..pos + 60]`.
pub fn decode_header(data: &[u8], pos: usize) -> (r: Result<ArFile, ArError>)
    requires
        pos + HEADER_LEN <= data@.len(),
    ensures
        entry_result_view(r) == decode_spec(
            data@.subrange(pos as int, pos + 60),
            pos + 60,
        ),
{
    let ghost h = data@.subrange(pos as int, pos + 60);
    let len = data.len();
    assert(pos + HEADER_LEN <= len);
    if data[pos + 58] != 0x60 || data[pos + 59] != 0x0A {
        assert(h.subrange(58, 60) != end_marker_spec()) by {
            assert(h.subrange(58, 60)[0] == data@[pos + 58]);
            assert(h.subrange(58, 60)[1] == data@[pos + 59]);
        }
        return Err(ArError::EndMarkerMismatch);
    }
    assert(h.subrange(58, 60) =~= end_marker_spec());
    let size_field = copy_range(data, pos + 48, pos + 58);
    assert(size_field@ =~= h.subrange(48, 58));
    match parse_decimal(size_field.as_slice()) {
        None => Err(ArError::SizeFieldUnparsable),
        Some(n) => {
            let name = copy_range(data, pos, pos + 16);
            let timestamp = copy_range(data, pos + 16, pos + 28);
            let owner = copy_range(data, pos + 28, pos + 34);
            let group = copy_range(data, pos + 34, pos + 40);
            let mode = copy_range(data, pos + 40, pos + 48);
            proof {
                crate::field::lemma_trim_len(h.subrange(48, 58), false);
                crate::field::lemma_digits_value_fits(crate::field::field_digits(h.subrange(48, 58)));
                crate::field::lemma_pow10_le(10, 18);
                reveal_with_fuel(crate::field::pow10, 19);
                assert(name@ =~= h.subrange(0, 16));
                assert(timestamp@ =~= h.subrange(16, 28));
                assert(owner@ =~= h.subrange(28, 34));
                assert(group@ =~= h.subrange(34, 40));
                assert(mode@ =~= h.subrange(40, 48));
            }
            Ok(
                ArFile {
                    name,
                    timestamp,
                    owner,
                    group,
                    mode,
                    size: n as i64,
                    offset: (pos + HEADER_LEN) as u64,
                },
            )
        },
    }
}

/// Encodes the header for a member named `name` with permission `mode` and a
/// payload of `size` bytes, or says which field does not fit.
pub fn encode_header(name: &[u8], mode: u32, size: u64) -> (r: Result<Vec<u8>, ArError>)
    ensures
        match r {
            Ok(h) => encode_spec(name@, mode as nat, size as nat) == Ok::<Seq<u8>, ArError>(h@),
            Err(e) => encode_spec(name@, mode as nat, size as nat) == Err::<Seq<u8>, ArError>(e),
        },
{
    if name.len() > NAME_WIDTH {
        return Err(ArError::NameTooLong);
    }
    let mut mode_digits: Vec<u8> = Vec::new();
    push_digits(&mut mode_digits, mode as u64, 8);
    assert(mode_digits@ =~= digits_of(mode as nat, 8));
    if mode_digits.len() > 8 {
        return Err(ArError::ModeTooLarge);
    }
    let mut size_digits: Vec<u8> = Vec::new();
    push_digits(&mut size_digits, size, 10);
    assert(size_digits@ =~= digits_of(size as nat, 10));
    if size_digits.len() > 10 {
        return Err(ArError::SizeTooLarge);
    }
    let zero: Vec<u8> = vec![0x30u8];
    assert(zero@ =~= zero_digit());
    let mut h: Vec<u8> = Vec::new();
    push_padded(&mut h, name, 16);
    push_padded(&mut h, zero.as_slice(), 12);
    push_padded(&mut h, zero.as_slice(), 6);
    push_padded(&mut h, zero.as_slice(), 6);
    push_padded(&mut h, mode_digits.as_slice(), 8);
    push_padded(&mut h, size_digits.as_slice(), 10);
    h.push(0x60);
    h.push(0x0A);
    assert(h@ =~= header_bytes(name@, mode as nat, size as nat));
    Ok(h)
}

/// Decoding an encoded header gives back what was encoded: the name, mode
/// and size in their padded fields, zeros for timestamp, owner and group,
/// and the size as a number.
pub proof fn lemma_header_round_trip(name: Seq<u8>, mode: nat, size: nat, offset: int)
    requires
        fits_header(name, mode, size),
    ensures
        encode_spec(name, mode, size) == Ok::<Seq<u8>, ArError>(header_bytes(name, mode, size)),
        header_bytes(name, mode, size).len() == 60,
        decode_spec(header_bytes(name, mode, size), offset) == Ok::<EntryView, ArError>(
            encoded_entry(name, mode, size, offset),
        ),
{
    let h = header_bytes(name, mode, size);
    assert(h.subrange(0, 16) =~= pad_field(name, 16));
    assert(h.subrange(16, 28) =~= pad_field(zero_digit(), 12));
    assert(h.subrange(28, 34) =~= pad_field(zero_digit(), 6));
    assert(h.subrange(34, 40) =~= pad_field(zero_digit(), 6));
    assert(h.subrange(40, 48) =~= pad_field(digits_of(mode, 8), 8));
    assert(h.subrange(48, 58) =~= pad_field(digits_of(size, 10), 10));
    assert(h.subrange(58, 60) =~= end_marker_spec());
    lemma_decimal_round_trip(size, 10);
}

} // verus!
