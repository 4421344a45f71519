//! Whole archives: the index of a stream of bytes, extraction of its members,
//! and packing members into a new archive.
use vstd::prelude::*;
use crate::field::{append_bytes, copy_range, trim, trim_bytes};
use crate::header::{
    decode_header, decode_spec, encode_header, encode_spec, header_bytes, signature_spec, ArError,
    ArFile, EntryView, HEADER_LEN, PAD, SIGNATURE_LEN,
};

verus! {

pub open spec fn entries_view(files: Seq<ArFile>) -> Seq<EntryView> {
    files.map_values(|f: ArFile| f@)
}

/// `acc` followed by the entries of `r`, or the error of `r`.
pub open spec fn prepend(acc: Seq<EntryView>, r: Result<Seq<EntryView>, ArError>) -> Result<
    Seq<EntryView>,
    ArError,
> {
    match r {
        Ok(rest) => Ok(acc + rest),
        Err(e) => Err(e),
    }
}

/// The entries whose headers start at `pos` and after, in order. Fewer than
/// 60 bytes left at a header's place end the archive; a header that does not
/// decode makes the whole scan fail. The next header starts after the
/// payload and, for an odd size, its pad byte.
pub open spec fn index_from(data: Seq<u8>, pos: int) -> Result<Seq<EntryView>, ArError>
    decreases data.len() - pos,
{
    if pos < 0 || pos + 60 > data.len() {
        Ok(Seq::empty())
    } else {
        match decode_spec(data.subrange(pos, pos + 60), pos + 60) {
            Err(e) => Err(e),
            Ok(e) => {
                let next = pos + 60 + e.size + e.size % 2;
                let rest = if pos < next <= data.len() {
                    index_from(data, next)
                } else {
                    Ok(Seq::empty())
                };
                prepend(seq![e], rest)
            },
        }
    }
}

/// The index of an archive: the signature must open it, then the entries
/// follow.
pub open spec fn index_spec(data: Seq<u8>) -> Result<Seq<EntryView>, ArError> {
    if data.len() < 8 || data.subrange(0, 8) != signature_spec() {
        Err(ArError::SignatureMismatch)
    } else {
        index_from(data, 8)
    }
}

/// The payload of `e` as far as `data` holds it.
pub open spec fn payload_spec(data: Seq<u8>, e: EntryView) -> Seq<u8> {
    if e.size <= 0 || e.offset >= data.len() {
        Seq::empty()
    } else if e.offset + e.size <= data.len() {
        data.subrange(e.offset, e.offset + e.size)
    } else {
        data.subrange(e.offset, data.len() as int)
    }
}

/// One member taken out of an archive: its name without surrounding
/// whitespace, its payload, and the size its header gave; a payload shorter
/// than that size was cut short by the end of the archive.
#[derive(Debug)]
pub struct Extracted {
    pub name: Vec<u8>,
    pub contents: Vec<u8>,
    pub size: i64,
}

impl View for Extracted {
    type V = (Seq<u8>, Seq<u8>, int);

    open spec fn view(&self) -> (Seq<u8>, Seq<u8>, int) {
        (self.name@, self.contents@, self.size as int)
    }
}

pub open spec fn extracted_spec(data: Seq<u8>, e: EntryView) -> (Seq<u8>, Seq<u8>, int) {
    (trim(e.name, true), payload_spec(data, e), e.size)
}

/// One member to pack: its name, permission mode and contents.
#[derive(Debug)]
pub struct Source {
    pub name: Vec<u8>,
    pub mode: u32,
    pub contents: Vec<u8>,
}

pub struct SourceView {
    pub name: Seq<u8>,
    pub mode: nat,
    pub contents: Seq<u8>,
}

impl View for Source {
    type V = SourceView;

    open spec fn view(&self) -> SourceView {
        SourceView { name: self.name@, mode: self.mode as nat, contents: self.contents@ }
    }
}

pub open spec fn sources_view(files: Seq<Source>) -> Seq<SourceView> {
    files.map_values(|f: Source| f@)
}

/// The pad after a payload of `n` bytes: one byte for odd `n`, none else.
pub open spec fn pad_spec(n: nat) -> Seq<u8> {
    if n % 2 == 1 {
        seq![PAD]
    } else {
        Seq::empty()
    }
}

/// A packed member: header, contents, pad.
pub open spec fn member_bytes(s: SourceView) -> Seq<u8> {
    header_bytes(s.name, s.mode, s.contents.len()) + s.contents + pad_spec(s.contents.len())
}

pub open spec fn members_bytes(ss: Seq<SourceView>) -> Seq<u8>
    decreases ss.len(),
{
    if ss.len() == 0 {
        Seq::empty()
    } else {
        member_bytes(ss[0]) + members_bytes(ss.drop_first())
    }
}

/// The error of the first member whose header cannot be encoded.
pub open spec fn first_error(ss: Seq<SourceView>) -> Option<ArError>
    decreases ss.len(),
{
    if ss.len() == 0 {
        None
    } else {
        match encode_spec(ss[0].name, ss[0].mode, ss[0].contents.len()) {
            Err(e) => Some(e),
            Ok(_) => first_error(ss.drop_first()),
        }
    }
}

/// A new archive: the signature, then each member in order; or the error of
/// the first member that does not fit a header.
pub open spec fn pack_spec(ss: Seq<SourceView>) -> Result<Seq<u8>, ArError> {
    match first_error(ss) {
        Some(e) => Err(e),
        None => Ok(signature_spec() + members_bytes(ss)),
    }
}

pub proof fn lemma_members_push(ss: Seq<SourceView>, s: SourceView)
    ensures
        members_bytes(ss.push(s)) == members_bytes(ss) + member_bytes(s),
    decreases ss.len(),
{
    if ss.len() == 0 {
        assert(ss.push(s).drop_first() =~= Seq::<SourceView>::empty());
        assert(members_bytes(ss.push(s).drop_first()) =~= Seq::<u8>::empty());
        assert(members_bytes(ss.push(s)) =~= member_bytes(s));
        assert(members_bytes(ss) =~= Seq::<u8>::empty());
    } else {
        assert(ss.push(s).drop_first() =~= ss.drop_first().push(s));
        lemma_members_push(ss.drop_first(), s);
        assert(members_bytes(ss.push(s)) =~= members_bytes(ss) + member_bytes(s));
    }
}

/// Whether `data` opens with the signature.
pub fn has_signature(data: &[u8]) -> (r: bool)
    ensures
        r == (data@.len() >= 8 && data@.subrange(0, 8) == signature_spec()),
{
    if data.len() < SIGNATURE_LEN {
        return false;
    }
    let ok = data[0] == 0x21 && data[1] == 0x3C && data[2] == 0x61 && data[3] == 0x72 && data[4]
        == 0x63 && data[5] == 0x68 && data[6] == 0x3E && data[7] == 0x0A;
    if ok {
        assert(data@.subrange(0, 8) =~= signature_spec());
    } else {
        assert(data@.subrange(0, 8) != signature_spec()) by {
            if data@.subrange(0, 8) == signature_spec() {
                assert(data@.subrange(0, 8)[0] == data@[0]);
                assert(data@.subrange(0, 8)[1] == data@[1]);
                assert(data@.subrange(0, 8)[2] == data@[2]);
                assert(data@.subrange(0, 8)[3] == data@[3]);
                assert(data@.subrange(0, 8)[4] == data@[4]);
                assert(data@.subrange(0, 8)[5] == data@[5]);
                assert(data@.subrange(0, 8)[6] == data@[6]);
                assert(data@.subrange(0, 8)[7] == data@[7]);
            }
        }
    }
    ok
}

/// The index of the archive `data`: its entries in order, each with the
/// position of its payload; payloads are skipped, not read.
pub fn build_index(data: &[u8]) -> (r: Result<Vec<ArFile>, ArError>)
    ensures
        match r {
            Ok(files) => index_spec(data@) == Ok::<Seq<EntryView>, ArError>(
                entries_view(files@),
            ),
            Err(e) => index_spec(data@) == Err::<Seq<EntryView>, ArError>(e),
        },
{
    if !has_signature(data) {
        return Err(ArError::SignatureMismatch);
    }
    let len = data.len();
    let mut pos: usize = SIGNATURE_LEN;
    let mut files: Vec<ArFile> = Vec::new();
    assert(entries_view(files@) =~= Seq::<EntryView>::empty());
    assert(prepend(Seq::empty(), index_from(data@, 8)) =~= index_from(data@, 8)) by {
        match index_from(data@, 8) {
            Ok(rest) => assert(Seq::<EntryView>::empty() + rest =~= rest),
            Err(e) => {},
        }
    }
    while pos <= len && HEADER_LEN <= len - pos
        invariant
            8 <= pos <= len == data@.len(),
            index_spec(data@) == prepend(entries_view(files@), index_from(data@, pos as int)),
        decreases len - pos,
    {
        match decode_header(data, pos) {
            Err(e) => {
                return Err(e);
            },
            Ok(f) => {
                let ghost acc = entries_view(files@);
                let ghost e = f@;
                let ghost p0 = pos as int;
                let size: u64 = f.size as u64;
                let step: u64 = size + size % 2;
                let remaining: usize = len - pos - HEADER_LEN;
                files.push(f);
                assert(entries_view(files@) =~= acc + seq![e]);
                if step > remaining as u64 {
                    pos = len;
                } else {
                    pos = pos + HEADER_LEN + step as usize;
                }
                proof {
                    let rest = index_from(data@, pos as int);
                    assert(index_from(data@, p0) == prepend(seq![e], rest));
                    match rest {
                        Ok(r) => {
                            assert(acc + (seq![e] + r) =~= (acc + seq![e]) + r);
                        },
                        Err(x) => {},
                    }
                }
            },
        }
    }
    Ok(files)
}

/// The payload of `f` as far as `data` holds it: a payload cut short by the
/// end of the data is returned as far as it goes.
pub fn payload(data: &[u8], f: &ArFile) -> (r: Vec<u8>)
    ensures
        r@ == payload_spec(data@, f@),
{
    let len = data.len();
    if f.size <= 0 || f.offset >= len as u64 {
        return Vec::new();
    }
    let start: usize = f.offset as usize;
    let available: usize = len - start;
    let n: usize = if (f.size as u64) < available as u64 {
        f.size as usize
    } else {
        available
    };
    copy_range(data, start, start + n)
}

/// Each entry of `files` taken out of `data`, in order: its trimmed name and
/// its payload.
pub fn extract(data: &[u8], files: &Vec<ArFile>) -> (r: Vec<Extracted>)
    ensures
        r@.len() == files@.len(),
        forall|i: int| 0 <= i < files@.len() ==> #[trigger] r@[i]@ == extracted_spec(
            data@,
            files@[i]@,
        ),
{
    let mut out: Vec<Extracted> = Vec::new();
    let mut i: usize = 0;
    while i < files.len()
        invariant
            i <= files@.len(),
            out@.len() == i,
            forall|j: int| 0 <= j < i ==> #[trigger] out@[j]@ == extracted_spec(
                data@,
                files@[j]@,
            ),
        decreases files@.len() - i,
    {
        let f = &files[i];
        let name = trim_bytes(f.name.as_slice(), true);
        let contents = payload(data, f);
        out.push(Extracted { name, contents, size: f.size });
        i = i + 1;
    }
    out
}

/// Packs `files` into a new archive, in order; fails with the error of the
/// first member whose name, mode or size does not fit its header field.
pub fn pack(files: &Vec<Source>) -> (r: Result<Vec<u8>, ArError>)
    ensures
        match r {
            Ok(bytes) => pack_spec(sources_view(files@)) == Ok::<Seq<u8>, ArError>(bytes@),
            Err(e) => pack_spec(sources_view(files@)) == Err::<Seq<u8>, ArError>(e),
        },
{
    let ghost ss = sources_view(files@);
    let mut out: Vec<u8> = vec![0x21u8, 0x3Cu8, 0x61u8, 0x72u8, 0x63u8, 0x68u8, 0x3Eu8, 0x0Au8];
    assert(out@ =~= signature_spec());
    assert(ss.subrange(0, 0) =~= Seq::<SourceView>::empty());
    assert(ss.subrange(0, ss.len() as int) =~= ss);
    let mut i: usize = 0;
    while i < files.len()
        invariant
            i <= files@.len() == ss.len(),
            ss == sources_view(files@),
            out@ == signature_spec() + members_bytes(ss.subrange(0, i as int)),
            first_error(ss) == first_error(ss.subrange(i as int, ss.len() as int)),
        decreases files@.len() - i,
    {
        let f = &files[i];
        let ghost sv = f@;
        assert(ss[i as int] == sv);
        let ghost tail = ss.subrange(i as int, ss.len() as int);
        assert(tail[0] == sv);
        assert(tail.drop_first() =~= ss.subrange(i + 1, ss.len() as int));
        match encode_header(f.name.as_slice(), f.mode, f.contents.len() as u64) {
            Err(e) => {
                return Err(e);
            },
            Ok(h) => {
                let ghost before = out@;
                append_bytes(&mut out, h.as_slice());
                append_bytes(&mut out, f.contents.as_slice());
                if f.contents.len() % 2 == 1 {
                    out.push(PAD);
                }
                proof {
                    assert(h@ == header_bytes(sv.name, sv.mode, sv.contents.len()));
                    assert(out@ =~= before + member_bytes(sv));
                    lemma_members_push(ss.subrange(0, i as int), sv);
                    assert(ss.subrange(0, i + 1) =~= ss.subrange(0, i as int).push(sv));
                }
            },
        }
        i = i + 1;
    }
    Ok(out)
}

/// Data that does not open with the signature has no index, whatever
/// follows: the signature is checked before any header is read.
pub proof fn lemma_signature_mismatch(data: Seq<u8>)
    requires
        data.len() < 8 || data.subrange(0, 8) != signature_spec(),
    ensures
        index_spec(data) == Err::<Seq<EntryView>, ArError>(ArError::SignatureMismatch),
{
}

/// The signature followed by fewer bytes than a header is an archive with
/// no entries.
pub proof fn lemma_empty_archive(data: Seq<u8>)
    requires
        8 <= data.len() < 68,
        data.subrange(0, 8) == signature_spec(),
    ensures
        index_spec(data) == Ok::<Seq<EntryView>, ArError>(Seq::empty()),
{
}

/// An archive held in memory: its bytes, and the index built from them (or
/// empty, for an archive being written).
#[derive(Debug)]
pub struct Archive {
    pub data: Vec<u8>,
    pub files: Vec<ArFile>,
}

impl Archive {
    /// An empty archive, to be packed.
    pub fn new() -> (r: Archive)
        ensures
            r.data@.len() == 0,
            r.files@.len() == 0,
    {
        Archive { data: Vec::new(), files: Vec::new() }
    }

    /// The archive held in `data`, not yet indexed.
    pub fn from_bytes(data: Vec<u8>) -> (r: Archive)
        ensures
            r.data@ == data@,
            r.files@.len() == 0,
    {
        Archive { data, files: Vec::new() }
    }

    /// Builds the index of the archive's bytes and adds its entries after
    /// those the archive already holds. On an error nothing is added: the
    /// entries found before the error are discarded.
    pub fn read_files(&mut self) -> (r: Result<(), ArError>)
        ensures
            final(self).data@ == old(self).data@,
            match index_spec(old(self).data@) {
                Ok(es) => r is Ok && entries_view(final(self).files@) == entries_view(
                    old(self).files@,
                ) + es,
                Err(e) => r == Err::<(), ArError>(e) && final(self).files@ == old(self).files@,
            },
    {
        match build_index(self.data.as_slice()) {
            Ok(files) => {
                let mut found = files;
                let ghost before = self.files@;
                let ghost added = found@;
                self.files.append(&mut found);
                assert(entries_view(self.files@) =~= entries_view(before) + entries_view(added));
                Ok(())
            },
            Err(e) => Err(e),
        }
    }

    /// Each indexed member, in order, as its trimmed name and its payload.
    pub fn unpack_files(&self) -> (r: Vec<Extracted>)
        ensures
            r@.len() == self.files@.len(),
            forall|i: int| 0 <= i < self.files@.len() ==> #[trigger] r@[i]@ == extracted_spec(
                self.data@,
                self.files@[i]@,
            ),
    {
        extract(self.data.as_slice(), &self.files)
    }

    /// Packs `files` into a new archive written after the bytes the archive
    /// already holds. On an error nothing is written.
    pub fn pack_files(&mut self, files: &Vec<Source>) -> (r: Result<(), ArError>)
        ensures
            final(self).files@ == old(self).files@,
            match pack_spec(sources_view(files@)) {
                Ok(bytes) => r is Ok && final(self).data@ == old(self).data@ + bytes,
                Err(e) => r == Err::<(), ArError>(e) && final(self).data@ == old(self).data@,
            },
    {
        match pack(files) {
            Ok(bytes) => {
                let mut written = bytes;
                self.data.append(&mut written);
                Ok(())
            },
            Err(e) => Err(e),
        }
    }
}

} // verus!
