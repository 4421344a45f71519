//! What packing and indexing say of each other: an archive built from
//! members indexes back to those members, and a member taken out of an
//! archive packs back to the same size and payload.
use vstd::prelude::*;
use crate::archive::{
    extracted_spec, first_error, index_from, index_spec, member_bytes, members_bytes, pack_spec,
    pad_spec, payload_spec, prepend, SourceView,
};
use crate::field::{
    digits_of, field_digits, lemma_digits_value_fits, lemma_trim_len, parse_decimal_spec,
};
use crate::header::{
    decode_spec, encode_spec, encoded_entry, fits_header, header_bytes, lemma_header_round_trip,
    end_marker_spec, signature_spec, ArError, EntryView, PAD,
};

verus! {

/// The entries that members `ss` get when packed with their first header at
/// `base`.
pub open spec fn packed_entries(ss: Seq<SourceView>, base: int) -> Seq<EntryView>
    decreases ss.len(),
{
    if ss.len() == 0 {
        Seq::empty()
    } else {
        seq![encoded_entry(ss[0].name, ss[0].mode, ss[0].contents.len(), base + 60)]
            + packed_entries(ss.drop_first(), base + member_bytes(ss[0]).len())
    }
}

/// A packed member is its 60-byte header, its contents, and a pad byte
/// exactly when the contents have odd length.
pub proof fn lemma_member_layout(s: SourceView)
    requires
        fits_header(s.name, s.mode, s.contents.len()),
    ensures
        member_bytes(s).len() == 60 + s.contents.len() + s.contents.len() % 2,
        member_bytes(s).subrange(60, 60 + s.contents.len() as int) == s.contents,
        s.contents.len() % 2 == 1 ==> member_bytes(s)[60 + s.contents.len() as int] == PAD,
{
    let n = s.contents.len() as int;
    lemma_header_round_trip(s.name, s.mode, n as nat, 0);
    let m = member_bytes(s);
    assert(m.subrange(60, 60 + n) =~= s.contents);
    if n % 2 == 1 {
        assert(m[60 + n] == pad_spec(n as nat)[0]);
    }
}

/// Consecutive packed entries: each payload starts 60 bytes after its
/// header, and the next header starts right after the payload and its pad.
pub proof fn lemma_packed_entries(ss: Seq<SourceView>, base: int)
    requires
        first_error(ss) is None,
    ensures
        packed_entries(ss, base).len() == ss.len(),
        forall|i: int|
            0 <= i < ss.len() ==> (#[trigger] packed_entries(ss, base)[i]).size
                == ss[i].contents.len(),
        ss.len() > 0 ==> packed_entries(ss, base)[0].offset == base + 60,
        forall|i: int|
            0 <= i < ss.len() - 1 ==> #[trigger] packed_entries(ss, base)[i + 1].offset
                == packed_entries(ss, base)[i].offset + packed_entries(ss, base)[i].size
                + packed_entries(ss, base)[i].size % 2 + 60,
    decreases ss.len(),
{
    if ss.len() > 0 {
        let s0 = ss[0];
        let rest = ss.drop_first();
        let next = base + member_bytes(s0).len();
        lemma_header_round_trip(s0.name, s0.mode, s0.contents.len(), 0);
        lemma_member_layout(s0);
        lemma_packed_entries(rest, next);
        let pe = packed_entries(ss, base);
        let pr = packed_entries(rest, next);
        assert(pe =~= seq![encoded_entry(s0.name, s0.mode, s0.contents.len(), base + 60)] + pr);
        assert forall|i: int| 0 <= i < ss.len() implies (#[trigger] pe[i]).size
            == ss[i].contents.len() by {
            if i > 0 {
                assert(pe[i] == pr[i - 1]);
                assert(ss[i] == rest[i - 1]);
            }
        }
        assert forall|i: int| 0 <= i < ss.len() - 1 implies #[trigger] pe[i + 1].offset
            == pe[i].offset + pe[i].size + pe[i].size % 2 + 60 by {
            if i > 0 {
                assert(pe[i] == pr[i - 1]);
                assert(pe[i + 1] == pr[i]);
            }
        }
    }
}

/// The index of bytes `p` followed by packed members `ss`, read from the end
/// of `p`, is the members' entries, and each entry's payload is the
/// member's contents, followed by the pad byte where its length is odd.
pub proof fn lemma_index_members(p: Seq<u8>, ss: Seq<SourceView>)
    requires
        first_error(ss) is None,
    ensures
        index_from(p + members_bytes(ss), p.len() as int) == Ok::<Seq<EntryView>, ArError>(
            packed_entries(ss, p.len() as int),
        ),
        forall|i: int|
            0 <= i < ss.len() ==> {
                let e = #[trigger] packed_entries(ss, p.len() as int)[i];
                let data = p + members_bytes(ss);
                &&& e.offset + e.size <= data.len()
                &&& data.subrange(e.offset, e.offset + e.size) == ss[i].contents
                &&& e.size % 2 == 1 ==> data[e.offset + e.size] == PAD
            },
    decreases ss.len(),
{
    let data = p + members_bytes(ss);
    let pos = p.len() as int;
    lemma_packed_entries(ss, pos);
    if ss.len() == 0 {
        assert(data =~= p);
    } else {
        let s0 = ss[0];
        let rest = ss.drop_first();
        let m = member_bytes(s0);
        let n = s0.contents.len() as int;
        let p2 = p + m;
        assert(data =~= p2 + members_bytes(rest));
        lemma_header_round_trip(s0.name, s0.mode, n as nat, pos + 60);
        lemma_member_layout(s0);
        lemma_index_members(p2, rest);
        assert(data.subrange(pos, pos + 60) =~= header_bytes(s0.name, s0.mode, n as nat));
        let e = encoded_entry(s0.name, s0.mode, n as nat, pos + 60);
        assert(pos + 60 + e.size + e.size % 2 == p2.len());
        let pr = packed_entries(rest, p2.len() as int);
        assert(index_from(data, pos) == prepend(seq![e], index_from(data, p2.len() as int)));
        assert(seq![e] + pr =~= packed_entries(ss, pos));
        let pe = packed_entries(ss, pos);
        assert forall|i: int| 0 <= i < ss.len() implies {
            let e = #[trigger] pe[i];
            &&& e.offset + e.size <= data.len()
            &&& data.subrange(e.offset, e.offset + e.size) == ss[i].contents
            &&& e.size % 2 == 1 ==> data[e.offset + e.size] == PAD
        } by {
            if i == 0 {
                assert(data.subrange(pos + 60, pos + 60 + n) =~= m.subrange(60, 60 + n));
                if n % 2 == 1 {
                    assert(data[pos + 60 + n] == m[60 + n]);
                }
            } else {
                assert(pe[i] == pr[i - 1]);
                assert(ss[i] == rest[i - 1]);
            }
        }
    }
}

/// An archive packed from members indexes back to one entry per member, in
/// order: the first payload right after the signature and header, each
/// later header right after the previous payload and its pad byte; each
/// entry's name, mode and size are the member's in their padded fields, its
/// payload is the member's contents, and a pad byte follows every payload of
/// odd length.
pub proof fn lemma_pack_then_index(ss: Seq<SourceView>)
    requires
        pack_spec(ss) is Ok,
    ensures
        index_spec(pack_spec(ss)->Ok_0) == Ok::<Seq<EntryView>, ArError>(
            packed_entries(ss, 8),
        ),
        packed_entries(ss, 8).len() == ss.len(),
        forall|i: int|
            0 <= i < ss.len() ==> {
                let e = #[trigger] packed_entries(ss, 8)[i];
                let data = pack_spec(ss)->Ok_0;
                &&& e == encoded_entry(ss[i].name, ss[i].mode, ss[i].contents.len(), e.offset)
                &&& payload_spec(data, e) == ss[i].contents
                &&& e.size % 2 == 1 ==> data[e.offset + e.size] == PAD
            },
        ss.len() > 0 ==> packed_entries(ss, 8)[0].offset == 68,
        forall|i: int|
            0 <= i < ss.len() - 1 ==> #[trigger] packed_entries(ss, 8)[i + 1].offset
                == packed_entries(ss, 8)[i].offset + packed_entries(ss, 8)[i].size
                + packed_entries(ss, 8)[i].size % 2 + 60,
{
    let data = signature_spec() + members_bytes(ss);
    assert(data.subrange(0, 8) =~= signature_spec());
    lemma_index_members(signature_spec(), ss);
    lemma_packed_entries(ss, 8);
    lemma_entries_are_encoded(ss, 8);
    let pe = packed_entries(ss, 8);
    assert forall|i: int| 0 <= i < ss.len() implies {
        let e = #[trigger] pe[i];
        &&& e == encoded_entry(ss[i].name, ss[i].mode, ss[i].contents.len(), e.offset)
        &&& payload_spec(data, e) == ss[i].contents
        &&& e.size % 2 == 1 ==> data[e.offset + e.size] == PAD
    } by {
        let e = pe[i];
        if e.size == 0 {
            assert(ss[i].contents =~= Seq::<u8>::empty());
        }
    }
}

proof fn lemma_entries_are_encoded(ss: Seq<SourceView>, base: int)
    ensures
        packed_entries(ss, base).len() == ss.len(),
        forall|i: int|
            0 <= i < ss.len() ==> #[trigger] packed_entries(ss, base)[i] == encoded_entry(
                ss[i].name,
                ss[i].mode,
                ss[i].contents.len(),
                packed_entries(ss, base)[i].offset,
            ),
    decreases ss.len(),
{
    if ss.len() > 0 {
        let rest = ss.drop_first();
        let next = base + member_bytes(ss[0]).len();
        lemma_entries_are_encoded(rest, next);
        let pe = packed_entries(ss, base);
        let pr = packed_entries(rest, next);
        assert(pe =~= seq![
            encoded_entry(ss[0].name, ss[0].mode, ss[0].contents.len(), base + 60),
        ] + pr);
        assert forall|i: int| 0 <= i < ss.len() implies #[trigger] pe[i] == encoded_entry(
            ss[i].name,
            ss[i].mode,
            ss[i].contents.len(),
            pe[i].offset,
        ) by {
            if i > 0 {
                assert(pe[i] == pr[i - 1]);
                assert(ss[i] == rest[i - 1]);
            }
        }
    }
}

/// Every entry that an index finds has a 16-byte name, a size of at most ten
/// decimal digits, and its payload offset 60 bytes past a header that lies
/// within the data.
pub proof fn lemma_index_entries(data: Seq<u8>, pos: int)
    requires
        index_from(data, pos) is Ok,
    ensures
        forall|i: int|
            0 <= i < index_from(data, pos)->Ok_0.len() ==> {
                let e = #[trigger] index_from(data, pos)->Ok_0[i];
                &&& e.name.len() == 16
                &&& e.size >= 0
                &&& digits_of(e.size as nat, 10).len() <= 10
                &&& 60 <= e.offset <= data.len()
            },
    decreases data.len() - pos,
{
    if !(pos < 0 || pos + 60 > data.len()) {
        let h = data.subrange(pos, pos + 60);
        let e = decode_spec(h, pos + 60)->Ok_0;
        let field = h.subrange(48, 58);
        let t = field_digits(field);
        lemma_trim_len(field, false);
        assert(parse_decimal_spec(field) is Some);
        lemma_digits_value_fits(t);
        let next = pos + 60 + e.size + e.size % 2;
        let es = index_from(data, pos)->Ok_0;
        if pos < next <= data.len() {
            lemma_index_entries(data, next);
            let rs = index_from(data, next)->Ok_0;
            assert(es =~= seq![e] + rs);
            assert forall|i: int| 0 <= i < es.len() implies {
                let x = #[trigger] es[i];
                &&& x.name.len() == 16
                &&& x.size >= 0
                &&& digits_of(x.size as nat, 10).len() <= 10
                &&& 60 <= x.offset <= data.len()
            } by {
                if i > 0 {
                    assert(es[i] == rs[i - 1]);
                }
            }
        } else {
            assert(es =~= seq![e]);
        }
    }
}

/// The member that packing the extracted entry `e` of `data` with
/// permission `mode` starts from: its trimmed name and its payload.
pub open spec fn repacked_source(data: Seq<u8>, e: EntryView, mode: nat) -> SourceView {
    SourceView {
        name: extracted_spec(data, e).0,
        mode,
        contents: extracted_spec(data, e).1,
    }
}

/// Taking a whole member out of an archive and packing it alone into a new
/// archive gives one entry with the original size, whose payload is the
/// original payload byte for byte.
pub proof fn lemma_extract_then_repack(data: Seq<u8>, i: int, mode: nat)
    requires
        index_spec(data) is Ok,
        0 <= i < index_spec(data)->Ok_0.len(),
        index_spec(data)->Ok_0[i].offset + index_spec(data)->Ok_0[i].size <= data.len(),
        digits_of(mode, 8).len() <= 8,
    ensures
        ({
            let e = index_spec(data)->Ok_0[i];
            let ss = seq![repacked_source(data, e, mode)];
            &&& pack_spec(ss) is Ok
            &&& index_spec(pack_spec(ss)->Ok_0) is Ok
            &&& index_spec(pack_spec(ss)->Ok_0)->Ok_0.len() == 1
            &&& index_spec(pack_spec(ss)->Ok_0)->Ok_0[0].size == e.size
            &&& payload_spec(pack_spec(ss)->Ok_0, index_spec(pack_spec(ss)->Ok_0)->Ok_0[0])
                == data.subrange(e.offset, e.offset + e.size)
        }),
{
    let es = index_spec(data)->Ok_0;
    let e = es[i];
    lemma_index_entries(data, 8);
    assert(index_spec(data) == index_from(data, 8));
    assert(e == index_from(data, 8)->Ok_0[i]);
    assert(e.name.len() == 16 && e.size >= 0 && digits_of(e.size as nat, 10).len() <= 10);
    let s = repacked_source(data, e, mode);
    lemma_trim_len(e.name, true);
    assert(s.contents =~= data.subrange(e.offset, e.offset + e.size));
    let ss = seq![s];
    assert(ss[0] == s);
    assert(ss.drop_first() =~= Seq::<SourceView>::empty());
    assert(s.contents.len() == e.size);
    assert(encode_spec(s.name, s.mode, s.contents.len()) is Ok);
    assert(first_error(ss.drop_first()) is None);
    assert(first_error(ss) is None);
    lemma_pack_then_index(ss);
}


proof fn lemma_index_offsets(data: Seq<u8>, pos: int)
    requires
        index_from(data, pos) is Ok,
    ensures
        ({
            let es = index_from(data, pos)->Ok_0;
            &&& es.len() > 0 ==> es[0].offset == pos + 60
            &&& forall|i: int|
                0 <= i < es.len() - 1 ==> #[trigger] es[i + 1].offset == es[i].offset
                    + es[i].size + es[i].size % 2 + 60
        }),
    decreases data.len() - pos,
{
    if !(pos < 0 || pos + 60 > data.len()) {
        let e = decode_spec(data.subrange(pos, pos + 60), pos + 60)->Ok_0;
        let next = pos + 60 + e.size + e.size % 2;
        let es = index_from(data, pos)->Ok_0;
        if pos < next <= data.len() {
            lemma_index_offsets(data, next);
            let rs = index_from(data, next)->Ok_0;
            assert(es =~= seq![e] + rs);
            assert forall|i: int| 0 <= i < es.len() - 1 implies #[trigger] es[i + 1].offset
                == es[i].offset + es[i].size + es[i].size % 2 + 60 by {
                assert(es[i + 1] == rs[i]);
                if i > 0 {
                    assert(es[i] == rs[i - 1]);
                    let j = i - 1;
                    assert(rs[j + 1].offset == rs[j].offset + rs[j].size + rs[j].size % 2 + 60);
                } else {
                    assert(es[0] == e);
                    assert(e.offset == pos + 60);
                    assert(rs[0].offset == next + 60);
                }
            }
        } else {
            assert(es =~= seq![e]);
        }
    }
}

/// In the index of any archive, the first payload starts right after the
/// signature and the first header, and each later header starts right after
/// the previous payload and, for an odd size, its pad byte.
pub proof fn lemma_index_layout(data: Seq<u8>)
    requires
        index_spec(data) is Ok,
    ensures
        ({
            let es = index_spec(data)->Ok_0;
            &&& es.len() > 0 ==> es[0].offset == 68
            &&& forall|i: int|
                0 <= i < es.len() - 1 ==> #[trigger] es[i + 1].offset == es[i].offset
                    + es[i].size + es[i].size % 2 + 60
        }),
{
    lemma_index_offsets(data, 8);
}

/// Whether `r` is one well-formed record: a header that decodes, then
/// exactly as many payload bytes as its size says, then one more byte where
/// the size is odd.
pub open spec fn is_record(r: Seq<u8>) -> bool {
    let h = decode_spec(r.subrange(0, 60), 60);
    &&& r.len() >= 60
    &&& h is Ok
    &&& r.len() == 60 + h->Ok_0.size + h->Ok_0.size % 2
}

pub open spec fn concat_records(rs: Seq<Seq<u8>>) -> Seq<u8>
    decreases rs.len(),
{
    if rs.len() == 0 {
        Seq::empty()
    } else {
        rs[0] + concat_records(rs.drop_first())
    }
}

/// Reading from the end of `p` over well-formed records `rs`, an error
/// found after them is the error of the whole scan.
proof fn lemma_records_pass_error(p: Seq<u8>, rs: Seq<Seq<u8>>, q: Seq<u8>)
    requires
        forall|i: int| 0 <= i < rs.len() ==> is_record(#[trigger] rs[i]),
        index_from(p + concat_records(rs) + q, (p.len() + concat_records(rs).len()) as int) is Err,
    ensures
        index_from(p + concat_records(rs) + q, p.len() as int) == index_from(
            p + concat_records(rs) + q,
            (p.len() + concat_records(rs).len()) as int,
        ),
    decreases rs.len(),
{
    let data = p + concat_records(rs) + q;
    if rs.len() == 0 {
        assert(concat_records(rs) =~= Seq::<u8>::empty());
    } else {
        let r0 = rs[0];
        let rest = rs.drop_first();
        assert(is_record(r0));
        let p2 = p + r0;
        assert(data =~= p2 + concat_records(rest) + q);
        assert forall|i: int| 0 <= i < rest.len() implies is_record(#[trigger] rest[i]) by {
            assert(rest[i] == rs[i + 1]);
        }
        assert(p2.len() + concat_records(rest).len() == p.len() + concat_records(rs).len());
        lemma_records_pass_error(p2, rest, q);
        let pos = p.len() as int;
        assert(data.subrange(pos, pos + 60) =~= r0.subrange(0, 60));
        let h = r0.subrange(0, 60);
        assert(decode_spec(h, pos + 60) is Ok);
        assert(decode_spec(h, pos + 60)->Ok_0.size == decode_spec(h, 60)->Ok_0.size);
    }
}

/// A header whose end marker is wrong fails the whole index, whatever
/// well-formed records come before it: none of their entries is kept.
pub proof fn lemma_bad_end_marker(rs: Seq<Seq<u8>>, h: Seq<u8>, rest: Seq<u8>)
    requires
        forall|i: int| 0 <= i < rs.len() ==> is_record(#[trigger] rs[i]),
        h.len() == 60,
        h.subrange(58, 60) != end_marker_spec(),
    ensures
        index_spec(signature_spec() + concat_records(rs) + h + rest) == Err::<
            Seq<EntryView>,
            ArError,
        >(ArError::EndMarkerMismatch),
{
    let q = h + rest;
    let data = signature_spec() + concat_records(rs) + q;
    assert(data =~= signature_spec() + concat_records(rs) + h + rest);
    assert(data.subrange(0, 8) =~= signature_spec());
    let pos = 8 + concat_records(rs).len() as int;
    assert(data.subrange(pos, pos + 60) =~= h);
    assert(index_from(data, pos) == Err::<Seq<EntryView>, ArError>(ArError::EndMarkerMismatch));
    lemma_records_pass_error(signature_spec(), rs, q);
}

/// Bytes in an archive packed from `ss`, after the signature: per member, a
/// header, the contents, and a pad byte for odd contents.
pub open spec fn packed_len(ss: Seq<SourceView>) -> int
    decreases ss.len(),
{
    if ss.len() == 0 {
        0
    } else {
        60 + ss[0].contents.len() + ss[0].contents.len() % 2 + packed_len(ss.drop_first())
    }
}

proof fn lemma_members_len(ss: Seq<SourceView>, base: int)
    requires
        first_error(ss) is None,
    ensures
        members_bytes(ss).len() == packed_len(ss),
        ss.len() > 0 ==> ({
            let e = packed_entries(ss, base)[ss.len() - 1];
            e.offset + e.size + e.size % 2 == base + members_bytes(ss).len()
        }),
    decreases ss.len(),
{
    lemma_packed_entries(ss, base);
    if ss.len() > 0 {
        let s0 = ss[0];
        let rest = ss.drop_first();
        lemma_header_round_trip(s0.name, s0.mode, s0.contents.len(), 0);
        lemma_member_layout(s0);
        let next = base + member_bytes(s0).len();
        lemma_members_len(rest, next);
        lemma_packed_entries(rest, next);
        let pe = packed_entries(ss, base);
        let pr = packed_entries(rest, next);
        assert(pe =~= seq![encoded_entry(s0.name, s0.mode, s0.contents.len(), base + 60)] + pr);
        if rest.len() > 0 {
            assert(pe[ss.len() - 1] == pr[rest.len() - 1]);
        }
    }
}

/// The length of a packed archive: the signature, then per member 60 header
/// bytes, its contents and a pad byte for odd contents; the last payload and
/// its pad end the archive.
pub proof fn lemma_pack_length(ss: Seq<SourceView>)
    requires
        pack_spec(ss) is Ok,
    ensures
        pack_spec(ss)->Ok_0.len() == 8 + packed_len(ss),
        ss.len() > 0 ==> ({
            let e = packed_entries(ss, 8)[ss.len() - 1];
            e.offset + e.size + e.size % 2 == pack_spec(ss)->Ok_0.len()
        }),
{
    lemma_members_len(ss, 8);
}

} // verus!
