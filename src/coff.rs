//! The layout of a COFF object file: file header, section header table,
//! symbol table, string table and the sections' contents.

use vstd::prelude::*;
use vstd::slice::{slice_subrange, slice_to_vec};
use crate::parse::{le16, le32, read_u16, read_u32};
use crate::text::{opt_text, text_from_utf8, utf8_text};
use vstd::utf8::{encode_scalar, encode_utf8, encode_utf8_decode_utf8, encode_utf8_valid_utf8};

verus! {

/// Size of the file header.
pub const HEADER_LENGTH: usize = 22;

/// Size of one record of the section header table.
pub const SECTION_HEADER_LENGTH: usize = 48;

/// Size of one symbol table entry.
pub const SYMBOL_LENGTH: usize = 18;

/// Size of the name field of a section header.
pub const NAME_LENGTH: usize = 8;

/// Why a buffer cannot be read as an object file.
#[derive(Debug)]
pub enum ParseError {
    /// The header's sizes and offsets reach past the end of the buffer, or the
    /// string table does not start with its own length.
    MalformedContainer,
}

/// The fields of the file header.
#[derive(Clone, Copy)]
pub struct Header {
    pub target_id: u16,
    pub section_count: u16,
    pub symbol_table_offset: u32,
    pub symbol_count: u32,
    pub optional_header_len: u16,
}

/// The file header that the first bytes of `d` hold.
pub open spec fn header_of(d: Seq<u8>) -> Header {
    Header {
        target_id: le16(d, 20) as u16,
        section_count: le16(d, 2) as u16,
        symbol_table_offset: le32(d, 8) as u32,
        symbol_count: le32(d, 12) as u32,
        optional_header_len: le16(d, 16) as u16,
    }
}

/// Where the section header table starts: right after the optional header.
pub open spec fn section_table_start(h: Header) -> int {
    HEADER_LENGTH + h.optional_header_len
}

/// Where the section header table ends.
pub open spec fn section_table_end(h: Header) -> int {
    section_table_start(h) + SECTION_HEADER_LENGTH * h.section_count
}

/// Where the symbol table ends, and the string table starts.
pub open spec fn symbol_table_end(h: Header) -> int {
    h.symbol_table_offset + SYMBOL_LENGTH * h.symbol_count
}

/// The bytes of the `k`-th record of the section header table.
pub open spec fn section_record(d: Seq<u8>, k: int) -> Seq<u8> {
    let start = section_table_start(header_of(d)) + SECTION_HEADER_LENGTH * k;
    d.subrange(start, start + SECTION_HEADER_LENGTH)
}

/// The string table: everything from the end of the symbol table to the end
/// of the file.
pub open spec fn string_table_of(d: Seq<u8>) -> Seq<u8> {
    d.subrange(symbol_table_end(header_of(d)), d.len() as int)
}

/// A string table starts with its own length.
pub open spec fn string_table_ok(t: Seq<u8>) -> bool {
    t.len() >= 4 && le32(t, 0) == t.len()
}

/// The header and the three tables lie inside the buffer, and the string
/// table states its own length.
pub open spec fn layout_fits(d: Seq<u8>) -> bool {
    &&& d.len() >= HEADER_LENGTH
    &&& section_table_end(header_of(d)) <= d.len()
    &&& symbol_table_end(header_of(d)) <= d.len()
    &&& string_table_ok(string_table_of(d))
}

/// Every section that has contents lies inside the buffer.
pub open spec fn sections_fit(d: Seq<u8>) -> bool {
    forall|k: int|
        0 <= k < header_of(d).section_count ==> {
            let r = #[trigger] section_record(d, k);
            le32(r, 20) != 0 && le32(r, 16) != 0 ==> le32(r, 20) + le32(r, 16) <= d.len()
        }
}

/// `d` can be read as an object file.
pub open spec fn container_ok(d: Seq<u8>) -> bool {
    layout_fits(d) && sections_fit(d)
}

/// The first index from `i` on that holds a zero byte, or the length of `s`.
pub open spec fn nul_end(s: Seq<u8>, i: int) -> int
    decreases s.len() - i,
{
    if i < 0 || i >= s.len() || s[i] == 0 {
        i
    } else {
        nul_end(s, i + 1)
    }
}

/// The bytes from `i` up to the next zero byte or the end of `s`.
pub open spec fn c_string_at(s: Seq<u8>, i: int) -> Seq<u8> {
    s.subrange(i, nul_end(s, i))
}

/// The bytes that an 8-byte name field stands for: its own bytes up to the
/// first zero when its first byte is not zero; otherwise the string that
/// starts in `table` at the offset held in its last four bytes.
pub open spec fn name_bytes(field: Seq<u8>, table: Seq<u8>) -> Option<Seq<u8>> {
    if field[0] != 0 {
        Some(c_string_at(field, 0))
    } else if le32(field, 4) <= table.len() {
        Some(c_string_at(table, le32(field, 4)))
    } else {
        None
    }
}

/// The text of an 8-byte name field, where it has one.
pub open spec fn decoded_name(field: Seq<u8>, table: Seq<u8>) -> Option<Seq<char>> {
    match name_bytes(field, table) {
        Some(b) => utf8_text(b),
        None => None,
    }
}

/// Every byte that `materialized` takes lies in `d` where the headers say
/// so; then each section holds as many bytes as its header declares.
proof fn lemma_materialized_lengths(d: Seq<u8>, hs: Seq<SectionHeader>)
    requires
        forall|k: int|
            0 <= k < hs.len() ==> (#[trigger] hs[k]).start != 0 && hs[k].length != 0 ==> hs[k].start
                + hs[k].length <= d.len(),
    ensures
        forall|i: int|
            0 <= i < materialized(d, hs).len() ==> (#[trigger] materialized(d, hs)[i]).1.len()
                == materialized(d, hs)[i].0.length,
    decreases hs.len(),
{
    if hs.len() > 0 {
        let rest = hs.drop_last();
        assert forall|k: int|
            0 <= k < rest.len() ==> (#[trigger] rest[k]).start != 0 && rest[k].length != 0
                ==> rest[k].start + rest[k].length <= d.len() by {
            if 0 <= k < rest.len() {
                assert(rest[k] == hs[k]);
            }
        }
        lemma_materialized_lengths(d, rest);
        assert(hs.last() == hs[hs.len() - 1]);
    }
}

/// Parsing a valid file keeps one section header for every record that the
/// file header declares, and every section it materializes holds exactly as
/// many bytes as its header declares.
pub proof fn lemma_section_counts(f: CoffFile, d: Seq<u8>)
    requires
        container_ok(d),
        f.parsed_from(d),
    ensures
        f.section_headers.headers@.len() == f.header.section_count,
        forall|i: int|
            0 <= i < f.sections@.len() ==> (#[trigger] f.sections@[i]).data@.len()
                == f.sections@[i].header.length,
{
    let hs = f.section_headers.headers@;
    assert forall|k: int|
        0 <= k < hs.len() ==> (#[trigger] hs[k]).start != 0 && hs[k].length != 0 ==> hs[k].start
            + hs[k].length <= d.len() by {
        if 0 <= k < hs.len() {
            assert(header_matches(hs[k], section_record(d, k), string_table_of(d)));
        }
    }
    lemma_materialized_lengths(d, hs);
    let views = f.sections@.map_values(|s: Section| section_view(s));
    assert forall|i: int| 0 <= i < f.sections@.len() implies (#[trigger] f.sections@[i]).data@.len()
        == f.sections@[i].header.length by {
        assert(views[i] == section_view(f.sections@[i]));
        assert(materialized(d, hs)[i] == views[i]);
    }
}

/// Where `s` has no zero byte from `i` to `j`, the string at `i` runs at
/// least to `j`.
proof fn lemma_nul_end_skips(s: Seq<u8>, i: int, j: int)
    requires
        0 <= i <= j <= s.len(),
        forall|k: int| i <= k < j ==> s[k] != 0,
    ensures
        nul_end(s, i) == nul_end(s, j),
    decreases j - i,
{
    if i < j {
        lemma_nul_end_skips(s, i + 1, j);
    }
}

/// The string at `i` ends at the first zero byte from `i` on, or at the end
/// of `s`.
pub proof fn lemma_nul_end(s: Seq<u8>, i: int)
    requires
        0 <= i <= s.len(),
    ensures
        i <= nul_end(s, i) <= s.len(),
        forall|k: int| i <= k < nul_end(s, i) ==> s[k] != 0,
        nul_end(s, i) == s.len() || s[nul_end(s, i)] == 0,
    decreases s.len() - i,
{
    if i < s.len() && s[i] != 0 {
        lemma_nul_end(s, i + 1);
    }
}

/// No byte of the UTF-8 encoding of a non-zero scalar is zero.
proof fn lemma_scalar_bytes_nonzero(v: u32)
    requires
        v != 0,
    ensures
        forall|k: int| 0 <= k < encode_scalar(v).len() ==> encode_scalar(v)[k] != 0,
{
    assert(1 <= v <= 0x7F ==> (v & 0x7F) != 0) by (bit_vector);
    assert(forall|x: u8| #[trigger] (0x80u8 | x) != 0u8) by (bit_vector);
    assert(forall|x: u8| #[trigger] (0xC0u8 | x) != 0u8) by (bit_vector);
    assert(forall|x: u8| #[trigger] (0xE0u8 | x) != 0u8) by (bit_vector);
    assert(forall|x: u8| #[trigger] (0xF0u8 | x) != 0u8) by (bit_vector);
}

/// No byte of the UTF-8 encoding of text without NUL characters is zero.
proof fn lemma_encoding_nonzero(name: Seq<char>)
    requires
        forall|i: int| 0 <= i < name.len() ==> name[i] as u32 != 0,
    ensures
        forall|k: int| 0 <= k < encode_utf8(name).len() ==> encode_utf8(name)[k] != 0,
    decreases name.len(),
{
    if name.len() > 0 {
        let rest = name.drop_first();
        assert forall|i: int| 0 <= i < rest.len() implies rest[i] as u32 != 0 by {
            assert(rest[i] == name[i + 1]);
        }
        lemma_encoding_nonzero(rest);
        lemma_scalar_bytes_nonzero(name[0] as u32);
        let head = encode_scalar(name[0] as u32);
        assert forall|k: int| 0 <= k < encode_utf8(name).len() implies encode_utf8(name)[k] != 0 by {
            if k < head.len() {
                assert(encode_utf8(name)[k] == head[k]);
            } else {
                assert(encode_utf8(name)[k] == encode_utf8(rest)[k - head.len()]);
            }
        }
    }
}

/// The name field that holds `name` inline: its UTF-8 bytes, padded with
/// zeros.
pub open spec fn inline_field(name: Seq<char>) -> Seq<u8> {
    encode_utf8(name) + Seq::new((NAME_LENGTH - encode_utf8(name).len()) as nat, |i: int| 0u8)
}

/// A name of one to eight bytes of UTF-8 without NUL characters, written
/// inline, reads back as that name, whatever the string table holds.
pub proof fn lemma_inline_name_round_trip(name: Seq<char>, table: Seq<u8>)
    requires
        name.len() > 0,
        encode_utf8(name).len() <= NAME_LENGTH,
        forall|i: int| 0 <= i < name.len() ==> name[i] as u32 != 0,
    ensures
        inline_field(name).len() == NAME_LENGTH,
        decoded_name(inline_field(name), table) == Some(name),
{
    let enc = encode_utf8(name);
    let field = inline_field(name);
    lemma_encoding_nonzero(name);
    lemma_scalar_bytes_nonzero(name[0] as u32);
    assert(enc.len() > 0) by {
        assert(encode_scalar(name[0] as u32).len() > 0);
    }
    assert(field[0] == enc[0]);
    assert forall|k: int| 0 <= k < enc.len() implies field[k] != 0 by {
        assert(field[k] == enc[k]);
    }
    lemma_nul_end_skips(field, 0, enc.len() as int);
    if enc.len() < field.len() {
        assert(field[enc.len() as int] == 0);
    }
    assert(c_string_at(field, 0) =~= enc);
    encode_utf8_valid_utf8(name);
    encode_utf8_decode_utf8(name);
}

/// A name field whose first four bytes are zero reads the string that starts
/// at the offset in its last four bytes, where that offset lies in the
/// table: the bytes from there up to the next zero byte or the table's end.
pub proof fn lemma_table_name(field: Seq<u8>, table: Seq<u8>)
    requires
        field.len() == NAME_LENGTH,
        field[0] == 0,
        le32(field, 4) <= table.len(),
    ensures
        ({
            let off = le32(field, 4);
            let bytes = c_string_at(table, off);
            &&& decoded_name(field, table) == utf8_text(bytes)
            &&& bytes == table.subrange(off, off + bytes.len())
            &&& forall|k: int| 0 <= k < bytes.len() ==> bytes[k] != 0
            &&& off + bytes.len() == table.len() || table[off + bytes.len()] == 0
        }),
{
    let off = le32(field, 4);
    lemma_nul_end(table, off);
}

impl Header {
    /// Reads the file header from the first bytes of `data`.
    pub fn parse(data: &[u8]) -> (r: Header)
        requires
            data.len() >= HEADER_LENGTH,
        ensures
            r == header_of(data@),
    {
        Header {
            target_id: read_u16(data, 20),
            section_count: read_u16(data, 2),
            symbol_table_offset: read_u32(data, 8),
            symbol_count: read_u32(data, 12),
            optional_header_len: read_u16(data, 16),
        }
    }

    pub fn get_target_id(&self) -> (r: u16)
        ensures
            r == self.target_id,
    {
        self.target_id
    }

    pub fn number_of_sections(&self) -> (r: usize)
        ensures
            r == self.section_count,
    {
        self.section_count as usize
    }

    pub fn symbol_table_start(&self) -> (r: u32)
        ensures
            r == self.symbol_table_offset,
    {
        self.symbol_table_offset
    }

    pub fn symbol_table_size(&self) -> (r: u32)
        ensures
            r == self.symbol_count,
    {
        self.symbol_count
    }

    pub fn optional_header_size(&self) -> (r: u16)
        ensures
            r == self.optional_header_len,
    {
        self.optional_header_len
    }
}

/// The string table, which holds the names longer than a name field.
pub struct StringTable<'data> {
    pub data: &'data [u8],
}

impl<'data> StringTable<'data> {
    /// Takes `data` as a string table, if it starts with its own length.
    pub fn parse(data: &'data [u8]) -> (r: Result<StringTable<'data>, ParseError>)
        ensures
            r is Ok <==> string_table_ok(data@),
            r matches Ok(t) ==> t.data@ == data@,
    {
        if data.len() < 4 {
            return Err(ParseError::MalformedContainer);
        }
        let len = read_u32(data, 0) as usize;
        if len != data.len() {
            return Err(ParseError::MalformedContainer);
        }
        Ok(StringTable { data })
    }

    /// Decodes an 8-byte name field: inline, or through this table.
    pub fn get_string(&self, field: &[u8]) -> (r: Option<String>)
        requires
            field.len() == NAME_LENGTH,
        ensures
            opt_text(r) == decoded_name(field@, self.data@),
    {
        let mut start: usize = 0;
        let src: &[u8] = if field[0] == 0 {
            let off = read_u32(field, 4) as usize;
            if off > self.data.len() {
                return None;
            }
            start = off;
            self.data
        } else {
            field
        };
        let mut end: usize = start;
        while end < src.len() && src[end] != 0
            invariant
                start <= end <= src@.len(),
                nul_end(src@, end as int) == nul_end(src@, start as int),
            decreases src@.len() - end,
        {
            end = end + 1;
        }
        let bytes = slice_subrange(src, start, end);
        assert(bytes@ == c_string_at(src@, start as int));
        text_from_utf8(bytes)
    }
}

/// The symbol table, kept as raw bytes.
pub struct SymbolTable<'data> {
    pub data: &'data [u8],
}

impl<'data> SymbolTable<'data> {
    fn parse(data: &'data [u8]) -> (r: SymbolTable<'data>)
        ensures
            r.data@ == data@,
    {
        SymbolTable { data }
    }
}

/// One record of the section header table, with its name resolved.
pub struct SectionHeader {
    /// `None` where the name field could not be decoded.
    pub name: Option<String>,
    pub start: u32,
    pub length: u32,
}

/// `h` is what the 48-byte record `b` says, with names resolved in `table`.
pub open spec fn header_matches(h: SectionHeader, b: Seq<u8>, table: Seq<u8>) -> bool {
    &&& opt_text(h.name) == decoded_name(b.subrange(0, NAME_LENGTH as int), table)
    &&& h.length == le32(b, 16)
    &&& h.start == le32(b, 20)
}

impl SectionHeader {
    fn parse(data: &[u8], strings: &StringTable) -> (r: SectionHeader)
        requires
            data.len() == SECTION_HEADER_LENGTH,
        ensures
            header_matches(r, data@, strings.data@),
    {
        let field = slice_subrange(data, 0, NAME_LENGTH);
        let name = strings.get_string(field);
        SectionHeader { name, start: read_u32(data, 20), length: read_u32(data, 16) }
    }

    /// The resolved name; empty where the name could not be decoded.
    pub fn name(&self) -> (r: &str)
        ensures
            r@ == match self.name {
                Some(s) => s@,
                None => Seq::<char>::empty(),
            },
    {
        match &self.name {
            Some(s) => s.as_str(),
            None => {
                proof {
                    reveal_strlit("");
                }
                ""
            },
        }
    }

    pub fn section_start_addr(&self) -> (r: usize)
        ensures
            r == self.start,
    {
        self.start as usize
    }

    pub fn section_length(&self) -> (r: usize)
        ensures
            r == self.length,
    {
        self.length as usize
    }

    fn duplicate(&self) -> (r: SectionHeader)
        ensures
            r == *self,
    {
        let name = match &self.name {
            Some(s) => Some(s.clone()),
            None => None,
        };
        SectionHeader { name, start: self.start, length: self.length }
    }
}

/// The section header table.
pub struct SectionHeaders<'data> {
    pub data: &'data [u8],
    pub headers: Vec<SectionHeader>,
}

impl<'data> SectionHeaders<'data> {
    fn parse(data: &'data [u8], strings: &StringTable<'data>, num_sections: usize) -> (r:
        SectionHeaders<'data>)
        requires
            data.len() == num_sections * SECTION_HEADER_LENGTH,
        ensures
            r.data@ == data@,
            r.headers@.len() == num_sections,
            forall|k: int|
                0 <= k < num_sections ==> header_matches(
                    #[trigger] r.headers@[k],
                    data@.subrange(SECTION_HEADER_LENGTH * k, SECTION_HEADER_LENGTH * (k + 1)),
                    strings.data@,
                ),
    {
        let mut headers: Vec<SectionHeader> = Vec::new();
        let mut k: usize = 0;
        while k < num_sections
            invariant
                k <= num_sections,
                data.len() == num_sections * SECTION_HEADER_LENGTH,
                headers@.len() == k,
                forall|j: int|
                    0 <= j < k ==> header_matches(
                        #[trigger] headers@[j],
                        data@.subrange(SECTION_HEADER_LENGTH * j, SECTION_HEADER_LENGTH * (j + 1)),
                        strings.data@,
                    ),
            decreases num_sections - k,
        {
            assert(SECTION_HEADER_LENGTH * (k + 1) <= SECTION_HEADER_LENGTH * num_sections)
                by (nonlinear_arith)
                requires
                    k < num_sections,
            ;
            let record = slice_subrange(
                data,
                k * SECTION_HEADER_LENGTH,
                (k + 1) * SECTION_HEADER_LENGTH,
            );
            headers.push(SectionHeader::parse(record, strings));
            k = k + 1;
        }
        SectionHeaders { data, headers }
    }
}

/// A section that has contents in the file.
pub struct Section<'data> {
    pub header: SectionHeader,
    pub data: &'data [u8],
}

/// The sections with contents that `hs` describe, with their bytes in `d`.
pub open spec fn materialized(d: Seq<u8>, hs: Seq<SectionHeader>) -> Seq<(SectionHeader, Seq<u8>)> {
    hs.filter_map(
        |h: SectionHeader|
            if h.start != 0 && h.length != 0 {
                Some((h, d.subrange(h.start as int, h.start + h.length)))
            } else {
                None
            },
    )
}

/// Section `s` has the resolved name `name`.
pub open spec fn is_named(s: Section, name: Seq<char>) -> bool {
    opt_text(s.header.name) == Some(name)
}

/// Position `i` holds the first section of `ss` named `name`.
pub open spec fn first_named(ss: Seq<Section>, name: Seq<char>, i: int) -> bool {
    &&& 0 <= i < ss.len()
    &&& is_named(ss[i], name)
    &&& forall|j: int| 0 <= j < i ==> !is_named(#[trigger] ss[j], name)
}

/// A section as its header and its bytes.
pub open spec fn section_view(s: Section) -> (SectionHeader, Seq<u8>) {
    (s.header, s.data@)
}

impl<'data> Section<'data> {
    fn parse(data: &'data [u8], header: SectionHeader) -> (r: Section<'data>)
        ensures
            r.header == header,
            r.data@ == data@,
    {
        Section { data, header }
    }

    /// A copy of the section's bytes.
    pub fn data(&self) -> (r: Vec<u8>)
        ensures
            r@ == self.data@,
    {
        slice_to_vec(self.data)
    }
}

/// A parsed object file.
pub struct CoffFile<'data> {
    pub data: &'data [u8],
    pub header: Header,
    pub section_headers: SectionHeaders<'data>,
    pub sections: Vec<Section<'data>>,
    pub strings: StringTable<'data>,
    pub symbols: SymbolTable<'data>,
}

impl<'data> CoffFile<'data> {
    /// `self` is what parsing `d` gives.
    pub open spec fn parsed_from(&self, d: Seq<u8>) -> bool {
        &&& self.data@ == d
        &&& self.header == header_of(d)
        &&& self.strings.data@ == string_table_of(d)
        &&& self.symbols.data@ == d.subrange(
            self.header.symbol_table_offset as int,
            symbol_table_end(self.header),
        )
        &&& self.section_headers.headers@.len() == self.header.section_count
        &&& forall|k: int|
            0 <= k < self.header.section_count ==> header_matches(
                #[trigger] self.section_headers.headers@[k],
                section_record(d, k),
                string_table_of(d),
            )
        &&& self.sections@.map_values(|s: Section| section_view(s)) == materialized(
            d,
            self.section_headers.headers@,
        )
    }

    /// Parses an object file held in `data`.
    pub fn parse(data: &'data [u8]) -> (r: Result<CoffFile<'data>, ParseError>)
        ensures
            r is Ok <==> container_ok(data@),
            r matches Ok(f) ==> f.parsed_from(data@),
    {
        let header = match CoffFile::parse_header(data) {
            Ok(h) => h,
            Err(e) => return Err(e),
        };
        let len = data.len() as u64;
        let sh_start: u64 = header.optional_header_size() as u64 + HEADER_LENGTH as u64;
        let count: u64 = header.section_count as u64;
        assert(count * SECTION_HEADER_LENGTH <= 0x10000 * SECTION_HEADER_LENGTH) by (nonlinear_arith)
            requires
                count < 0x10000,
        ;
        let sh_end: u64 = sh_start + count * SECTION_HEADER_LENGTH as u64;
        if sh_end > len {
            return Err(ParseError::MalformedContainer);
        }
        let sym_start: u64 = header.symbol_table_start() as u64;
        let symbols: u64 = header.symbol_count as u64;
        assert(symbols * SYMBOL_LENGTH <= 0x1_0000_0000 * SYMBOL_LENGTH) by (nonlinear_arith)
            requires
                symbols < 0x1_0000_0000,
        ;
        let sym_end: u64 = sym_start + symbols * SYMBOL_LENGTH as u64;
        if sym_end > len {
            return Err(ParseError::MalformedContainer);
        }
        let section_header_data = slice_subrange(data, sh_start as usize, sh_end as usize);
        let symbol_table_data = slice_subrange(data, sym_start as usize, sym_end as usize);
        let string_table_data = slice_subrange(data, sym_end as usize, data.len());
        let string_table = match StringTable::parse(string_table_data) {
            Ok(t) => t,
            Err(e) => return Err(e),
        };
        let n = header.number_of_sections();
        let section_headers = SectionHeaders::parse(section_header_data, &string_table, n);
        let symbol_table = SymbolTable::parse(symbol_table_data);
        proof {
            assert forall|k: int| 0 <= k < n implies header_matches(
                #[trigger] section_headers.headers@[k],
                section_record(data@, k),
                string_table_of(data@),
            ) by {
                assert(section_header_data@.subrange(
                    SECTION_HEADER_LENGTH * k,
                    SECTION_HEADER_LENGTH * (k + 1),
                ) =~= section_record(data@, k));
            }
        }

        let mut sections: Vec<Section<'data>> = Vec::new();
        let mut k: usize = 0;
        while k < n
            invariant
                k <= n,
                n == header.section_count,
                header == header_of(data@),
                len == data@.len(),
                section_headers.headers@.len() == n,
                forall|j: int|
                    0 <= j < n ==> header_matches(
                        #[trigger] section_headers.headers@[j],
                        section_record(data@, j),
                        string_table_of(data@),
                    ),
                forall|j: int|
                    0 <= j < k ==> {
                        let r = #[trigger] section_record(data@, j);
                        le32(r, 20) != 0 && le32(r, 16) != 0 ==> le32(r, 20) + le32(r, 16)
                            <= data@.len()
                    },
                sections@.map_values(|s: Section| section_view(s)) == materialized(
                    data@,
                    section_headers.headers@.take(k as int),
                ),
            decreases n - k,
        {
            let h = &section_headers.headers[k];
            let start = h.section_start_addr();
            let length = h.section_length();
            let ghost before = section_headers.headers@.take(k as int);
            assert(section_headers.headers@.take(k + 1).drop_last() =~= before);
            assert(section_headers.headers@.take(k + 1).last() == *h);
            if start == 0 || length == 0 {
                assert(materialized(data@, section_headers.headers@.take(k + 1)) == materialized(
                    data@,
                    before,
                ));
                k = k + 1;
                continue;
            }
            if start > data.len() || length > data.len() - start {
                assert(!sections_fit(data@)) by {
                    assert(section_record(data@, k as int) == section_record(data@, k as int));
                }
                return Err(ParseError::MalformedContainer);
            }
            let end_addr: usize = start + length;
            let raw_data = slice_subrange(data, start, end_addr);
            let section = Section::parse(raw_data, h.duplicate());
            sections.push(section);
            assert(materialized(data@, section_headers.headers@.take(k + 1)) == materialized(
                data@,
                before,
            ).push(section_view(section)));
            assert(sections@.map_values(|s: Section| section_view(s)) =~= materialized(
                data@,
                before,
            ).push(section_view(section)));
            k = k + 1;
        }
        assert(section_headers.headers@.take(n as int) =~= section_headers.headers@);
        Ok(
            CoffFile {
                data,
                header,
                section_headers,
                sections,
                strings: string_table,
                symbols: symbol_table,
            },
        )
    }

    /// Reads the file header, if the buffer is long enough to hold one.
    fn parse_header(data: &[u8]) -> (r: Result<Header, ParseError>)
        ensures
            r is Ok <==> data.len() >= HEADER_LENGTH,
            r matches Ok(h) ==> h == header_of(data@),
    {
        if data.len() < HEADER_LENGTH {
            return Err(ParseError::MalformedContainer);
        }
        Ok(Header::parse(data))
    }

    /// The first section with contents whose name is `name`.
    pub fn get_section(&self, name: &str) -> (r: Option<Section<'data>>)
        ensures
            r matches Some(s) ==> exists|i: int|
                first_named(self.sections@, name@, i) && section_view(s) == section_view(
                    #[trigger] self.sections@[i],
                ),
            r is None ==> forall|i: int|
                0 <= i < self.sections@.len() ==> !is_named(#[trigger] self.sections@[i], name@),
    {
        let target = name.to_owned();
        let mut i: usize = 0;
        while i < self.sections.len()
            invariant
                i <= self.sections@.len(),
                target@ == name@,
                forall|j: int| 0 <= j < i ==> !is_named(#[trigger] self.sections@[j], name@),
            decreases self.sections@.len() - i,
        {
            let section = &self.sections[i];
            match &section.header.name {
                Some(n) => {
                    if *n == target {
                        return Some(Section { header: section.header.duplicate(), data: section.data });
                    }
                },
                None => {},
            }
            i = i + 1;
        }
        None
    }

    pub fn header(&self) -> (r: Header)
        ensures
            r == self.header,
    {
        self.header
    }
}

} // verus!
