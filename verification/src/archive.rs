//! The archive reader.
//!
//! An archive starts with a header of fixed size. The header says where
//! the index stands, and the index lists the files of the archive, each
//! with the hash of its content. An archive may carry a footer with the
//! names that its files had; it stands at a fixed place behind the header.
//! All numbers are little-endian.

use vstd::prelude::*;
use vstd::bytes::{spec_u32_from_le_bytes, spec_u64_from_le_bytes, u32_from_le_bytes, u64_from_le_bytes};
use vstd::slice::slice_subrange;
use vstd::utf8::{decode_utf8, encode_utf8, valid_utf8};

verus! {

/// The number that the header of an archive of the game starts with.
pub const HEADER_MAGIC: u32 = 0x52414452;

/// The size of the header.
pub const HEADER_SIZE: usize = 40;

/// Where the footer stands.
pub const HEADER_EXTENDED_SIZE: usize = 0xAC;

/// The size of the fixed fields of the footer.
pub const FOOTER_FIXED_SIZE: usize = 20;

/// The number that the footer starts with.
pub const FOOTER_MAGIC: u32 = 0x4C585253;

/// The size of the fixed fields of the index.
pub const INDEX_FIXED_SIZE: usize = 28;

/// The size of one file entry: 36 bytes of numbers and the 20 bytes of a
/// SHA-1 digest.
pub const FILE_ENTRY_SIZE: usize = 56;

/// Why an archive could not be read.
#[derive(Debug, Clone, Copy, PartialEq, Eq, Structural)]
pub enum ArchiveError {
    /// The bytes end before what has to be read.
    Truncated,
    /// The footer does not start with its magic number.
    InvalidFooterMagic,
    /// The footer declares a size below its compressed size, or holds a
    /// name that is no text.
    InvalidFooter,
    /// The compressed names could not be expanded to their declared size.
    DecompressionFailed,
}

/// The header of an archive.
#[derive(Debug, Clone, Copy, PartialEq, Eq, Structural)]
pub struct Header {
    pub magic: u32,
    pub version: u32,
    pub index_position: u64,
    pub index_size: u32,
    pub debug_position: u64,
    pub debug_size: u32,
    pub filesize: u64,
}

impl Header {
    /// Whether the header starts with the magic number. Reading does not
    /// ask for it.
    pub fn has_magic(&self) -> (known: bool)
        ensures
            known == (self.magic == HEADER_MAGIC),
    {
        self.magic == HEADER_MAGIC
    }
}

/// One file of an archive.
#[derive(Debug, Clone, PartialEq, Eq)]
pub struct FileEntry {
    /// The hash of the content: the identity of the file
    pub name_hash_64: u64,
    pub timestamp: u64,
    pub num_inline_buffer_segments: u32,
    pub segments_start: u32,
    pub segments_end: u32,
    pub resource_dependencies_start: u32,
    pub resource_dependencies_end: u32,
    pub sha1_hash: Vec<u8>,
}

/// A file entry as plain values.
pub struct FileEntryView {
    pub name_hash_64: u64,
    pub timestamp: u64,
    pub num_inline_buffer_segments: u32,
    pub segments_start: u32,
    pub segments_end: u32,
    pub resource_dependencies_start: u32,
    pub resource_dependencies_end: u32,
    pub sha1_hash: Seq<u8>,
}

impl View for FileEntry {
    type V = FileEntryView;

    open spec fn view(&self) -> FileEntryView {
        FileEntryView {
            name_hash_64: self.name_hash_64,
            timestamp: self.timestamp,
            num_inline_buffer_segments: self.num_inline_buffer_segments,
            segments_start: self.segments_start,
            segments_end: self.segments_end,
            resource_dependencies_start: self.resource_dependencies_start,
            resource_dependencies_end: self.resource_dependencies_end,
            sha1_hash: self.sha1_hash@,
        }
    }
}

/// The index of an archive. Its file entries stand in the order of their
/// content hashes, and no two have the same.
#[derive(Debug, Clone, PartialEq, Eq)]
pub struct Index {
    pub file_table_offset: u32,
    pub file_table_size: u32,
    pub crc: u64,
    pub file_entry_count: u32,
    pub file_segment_count: u32,
    pub resource_dependency_count: u32,
    pub file_entries: Vec<FileEntry>,
}

/// An archive.
#[derive(Debug, Clone, PartialEq, Eq)]
pub struct Archive {
    pub header: Header,
    pub index: Index,
    /// The names of the files, where the archive carries them
    pub file_names: Option<Vec<String>>,
}

/// The four bytes at `at` as a number.
pub open spec fn u32_at(bytes: Seq<u8>, at: int) -> u32 {
    spec_u32_from_le_bytes(bytes.subrange(at, at + 4))
}

/// The eight bytes at `at` as a number.
pub open spec fn u64_at(bytes: Seq<u8>, at: int) -> u64 {
    spec_u64_from_le_bytes(bytes.subrange(at, at + 8))
}

/// Reads the number in the four bytes at `at`.
pub fn read_u32(bytes: &[u8], at: usize) -> (value: u32)
    requires
        at + 4 <= bytes@.len(),
    ensures
        value == u32_at(bytes@, at as int),
{
    let len: usize = bytes.len();
    assert(at + 4 <= len);
    u32_from_le_bytes(slice_subrange(bytes, at, at + 4))
}

/// Reads the number in the eight bytes at `at`.
pub fn read_u64(bytes: &[u8], at: usize) -> (value: u64)
    requires
        at + 8 <= bytes@.len(),
    ensures
        value == u64_at(bytes@, at as int),
{
    let len: usize = bytes.len();
    assert(at + 8 <= len);
    u64_from_le_bytes(slice_subrange(bytes, at, at + 8))
}

/// The header that `bytes` start with.
pub open spec fn header_of(bytes: Seq<u8>) -> Header {
    Header {
        magic: u32_at(bytes, 0),
        version: u32_at(bytes, 4),
        index_position: u64_at(bytes, 8),
        index_size: u32_at(bytes, 16),
        debug_position: u64_at(bytes, 20),
        debug_size: u32_at(bytes, 28),
        filesize: u64_at(bytes, 32),
    }
}

/// Reads the header. The magic number is taken as it is.
pub fn read_header(bytes: &[u8]) -> (header: Result<Header, ArchiveError>)
    ensures
        bytes@.len() < HEADER_SIZE ==> header == Err::<Header, ArchiveError>(
            ArchiveError::Truncated,
        ),
        bytes@.len() >= HEADER_SIZE ==> header == Ok::<Header, ArchiveError>(header_of(bytes@)),
{
    if bytes.len() < HEADER_SIZE {
        return Err(ArchiveError::Truncated);
    }
    Ok(
        Header {
            magic: read_u32(bytes, 0),
            version: read_u32(bytes, 4),
            index_position: read_u64(bytes, 8),
            index_size: read_u32(bytes, 16),
            debug_position: read_u64(bytes, 20),
            debug_size: read_u32(bytes, 28),
            filesize: read_u64(bytes, 32),
        },
    )
}

/// The place of the first zero byte at `at` or behind it, or the length of
/// `bytes` where there is none.
pub open spec fn zero_from(bytes: Seq<u8>, at: int) -> int
    decreases bytes.len() - at,
{
    if at < 0 || at >= bytes.len() {
        bytes.len() as int
    } else if bytes[at] == 0 {
        at
    } else {
        zero_from(bytes, at + 1)
    }
}

/// The `count` names that stand in `bytes` from `at` on, each ended by a
/// zero byte.
///
/// `Truncated` where the bytes end before the zero byte of a name, and
/// `InvalidFooter` where a name is not UTF-8.
pub open spec fn names_at(bytes: Seq<u8>, at: int, count: nat) -> Result<Seq<Seq<char>>, ArchiveError>
    decreases count,
{
    if count == 0 {
        Ok(Seq::empty())
    } else {
        let end = zero_from(bytes, at);
        if at < 0 || end >= bytes.len() {
            Err(ArchiveError::Truncated)
        } else if !valid_utf8(bytes.subrange(at, end)) {
            Err(ArchiveError::InvalidFooter)
        } else {
            match names_at(bytes, end + 1, (count - 1) as nat) {
                Ok(rest) => Ok(seq![decode_utf8(bytes.subrange(at, end))] + rest),
                Err(e) => Err(e),
            }
        }
    }
}

/// `String::from_utf8`: the text that `bytes` encode, or `None` where they
/// are not UTF-8.
#[verifier::external_body]
fn text_of(bytes: Vec<u8>) -> (text: Option<String>)
    ensures
        text is Some <==> valid_utf8(bytes@),
        text matches Some(s) ==> s@ == decode_utf8(bytes@),
{
    String::from_utf8(bytes).ok()
}

/// The character sequences of a list of strings.
pub open spec fn texts(v: Seq<String>) -> Seq<Seq<char>> {
    v.map_values(|s: String| s@)
}

/// Reads `count` names from `at` on, each ended by a zero byte.
pub fn read_names(bytes: &[u8], at: usize, count: u32) -> (read: Result<Vec<String>, ArchiveError>)
    ensures
        read matches Ok(list) ==> names_at(bytes@, at as int, count as nat) == Ok::<
            Seq<Seq<char>>,
            ArchiveError,
        >(texts(list@)),
        read matches Err(e) ==> names_at(bytes@, at as int, count as nat) == Err::<
            Seq<Seq<char>>,
            ArchiveError,
        >(e),
{
    let mut list: Vec<String> = Vec::new();
    let mut from: usize = at;
    let mut k: u32 = 0;
    proof {
        assert(texts(list@) == Seq::<Seq<char>>::empty());
    }
    while k < count
        invariant
            k <= count,
            from <= usize::MAX,
            names_at(bytes@, at as int, count as nat) == match names_at(
                bytes@,
                from as int,
                (count - k) as nat,
            ) {
                Ok(rest) => Ok::<Seq<Seq<char>>, ArchiveError>(texts(list@) + rest),
                Err(e) => Err(e),
            },
        decreases count - k,
    {
        let mut end: usize = from;
        while end < bytes.len() && bytes[end] != 0
            invariant
                from <= end,
                zero_from(bytes@, from as int) == zero_from(bytes@, end as int),
            decreases bytes.len() - end,
        {
            end += 1;
        }
        if end >= bytes.len() {
            return Err(ArchiveError::Truncated);
        }
        let mut raw: Vec<u8> = Vec::new();
        let mut i: usize = from;
        while i < end
            invariant
                from <= i <= end < bytes.len(),
                raw@ == bytes@.subrange(from as int, i as int),
            decreases end - i,
        {
            raw.push(bytes[i]);
            proof {
                assert(bytes@.subrange(from as int, i + 1) == bytes@.subrange(
                    from as int,
                    i as int,
                ).push(bytes@[i as int]));
            }
            i += 1;
        }
        match text_of(raw) {
            None => {
                return Err(ArchiveError::InvalidFooter);
            },
            Some(name) => {
                proof {
                    let rest = names_at(bytes@, end + 1, (count - k - 1) as nat);
                    assert(texts(list@.push(name)) == texts(list@).push(name@));
                    if rest is Ok {
                        assert(texts(list@) + (seq![name@] + rest->Ok_0) == texts(list@).push(
                            name@,
                        ) + rest->Ok_0);
                    }
                }
                list.push(name);
            },
        }
        from = end + 1;
        k += 1;
    }
    proof {
        assert(texts(list@) + Seq::<Seq<char>>::empty() == texts(list@));
    }
    Ok(list)
}

/// The bytes in which a footer holds names: each name in UTF-8, with a
/// zero byte behind it.
pub open spec fn written_names(list: Seq<Seq<char>>) -> Seq<u8>
    decreases list.len(),
{
    if list.len() == 0 {
        Seq::empty()
    } else {
        encode_utf8(list[0]) + seq![0u8] + written_names(list.drop_first())
    }
}

/// No name holds the character that is written as a zero byte.
pub open spec fn free_of_zero(list: Seq<Seq<char>>) -> bool {
    forall|i: int| 0 <= i < list.len() ==> !encode_utf8(#[trigger] list[i]).contains(0u8)
}

/// The first zero byte behind bytes that are not zero.
proof fn lemma_zero_from(bytes: Seq<u8>, at: int, end: int)
    requires
        0 <= at <= end < bytes.len(),
        bytes[end] == 0,
        forall|k: int| at <= k < end ==> bytes[k] != 0,
    ensures
        zero_from(bytes, at) == end,
    decreases end - at,
{
    if at < end {
        lemma_zero_from(bytes, at + 1, end);
    }
}

/// Names that were written are read back: where `bytes` hold at `at` the
/// written form of a list of names without zero bytes, reading as many
/// names as the list has gives the list, each name as it was and in its
/// place.
pub proof fn lemma_names_read_back(bytes: Seq<u8>, at: int, list: Seq<Seq<char>>)
    requires
        0 <= at,
        at + written_names(list).len() <= bytes.len(),
        bytes.subrange(at, at + written_names(list).len()) == written_names(list),
        free_of_zero(list),
    ensures
        names_at(bytes, at, list.len()) == Ok::<Seq<Seq<char>>, ArchiveError>(list),
    decreases list.len(),
{
    if list.len() > 0 {
        let first = encode_utf8(list[0]);
        let rest = list.drop_first();
        let all = written_names(list);
        let end = at + first.len();
        assert(all == first + seq![0u8] + written_names(rest));
        assert forall|k: int| at <= k < end implies bytes[k] != 0 by {
            assert(bytes[k] == bytes.subrange(at, at + all.len())[k - at]);
            assert(all[k - at] == first[k - at]);
            assert(first.contains(first[k - at]));
        }
        assert(bytes[end] == 0) by {
            assert(bytes[end] == bytes.subrange(at, at + all.len())[end - at]);
        }
        lemma_zero_from(bytes, at, end);
        assert(bytes.subrange(at, end) =~= first) by {
            assert forall|k: int| 0 <= k < first.len() implies bytes.subrange(at, end)[k]
                == first[k] by {
                assert(bytes[at + k] == bytes.subrange(at, at + all.len())[k]);
            }
        }
        vstd::utf8::encode_utf8_valid_utf8(list[0]);
        vstd::utf8::encode_utf8_decode_utf8(list[0]);
        assert(bytes.subrange(end + 1, end + 1 + written_names(rest).len()) =~= written_names(
            rest,
        )) by {
            assert forall|k: int| 0 <= k < written_names(rest).len() implies bytes.subrange(
                end + 1,
                end + 1 + written_names(rest).len(),
            )[k] == written_names(rest)[k] by {
                assert(bytes[end + 1 + k] == bytes.subrange(at, at + all.len())[end + 1 + k - at]);
            }
        }
        assert forall|i: int| 0 <= i < rest.len() implies !encode_utf8(
            #[trigger] rest[i],
        ).contains(0u8) by {
            assert(rest[i] == list[i + 1]);
        }
        lemma_names_read_back(bytes, end + 1, rest);
        assert(seq![list[0]] + rest =~= list);
        assert(rest.len() == (list.len() - 1) as nat);
        assert(decode_utf8(bytes.subrange(at, end)) == list[0]);
        assert(names_at(bytes, end + 1, (list.len() - 1) as nat) == Ok::<
            Seq<Seq<char>>,
            ArchiveError,
        >(rest));
    } else {
        assert(list =~= Seq::<Seq<char>>::empty());
    }
}

/// What stands at the place of the footer.
pub enum Footer {
    /// The archive carries no names.
    Absent,
    /// The names of the files.
    Names(Vec<String>),
    /// The names of the files, compressed: `data` has to be expanded to
    /// `size` bytes, which hold `count` names.
    Compressed { data: Vec<u8>, size: u32, count: u32 },
}

/// A footer as plain values.
pub enum FooterView {
    Absent,
    Names(Seq<Seq<char>>),
    Compressed { data: Seq<u8>, size: u32, count: u32 },
}

impl View for Footer {
    type V = FooterView;

    open spec fn view(&self) -> FooterView {
        match self {
            Footer::Absent => FooterView::Absent,
            Footer::Names(list) => FooterView::Names(texts(list@)),
            Footer::Compressed { data, size, count } => FooterView::Compressed {
                data: data@,
                size: *size,
                count: *count,
            },
        }
    }
}

/// The number of names that a footer with this count holds. The count is
/// a signed number, and a footer with a count below zero holds no names.
pub open spec fn name_count(count: u32) -> u32 {
    if count > 0x7fff_ffff {
        0
    } else {
        count
    }
}

/// The footer of an archive of these bytes.
///
/// The four bytes behind the header tell whether there is a footer: there
/// is none where they are missing or zero. A footer starts with its magic
/// number, its version, the size of its names, their compressed size and
/// their count. Where the two sizes are equal the names follow as they
/// are, and where the compressed size is the smaller one they follow
/// compressed.
pub open spec fn footer_of(bytes: Seq<u8>) -> Result<FooterView, ArchiveError> {
    let at = HEADER_EXTENDED_SIZE as int;
    let data = at + FOOTER_FIXED_SIZE;
    if bytes.len() < HEADER_SIZE + 4 || u32_at(bytes, HEADER_SIZE as int) == 0 {
        Ok(FooterView::Absent)
    } else if bytes.len() < data {
        Err(ArchiveError::Truncated)
    } else if u32_at(bytes, at) != FOOTER_MAGIC {
        Err(ArchiveError::InvalidFooterMagic)
    } else {
        let size = u32_at(bytes, at + 8);
        let zsize = u32_at(bytes, at + 12);
        let count = name_count(u32_at(bytes, at + 16));
        if size < zsize {
            Err(ArchiveError::InvalidFooter)
        } else if size == zsize {
            match names_at(bytes, data, count as nat) {
                Ok(list) => Ok(FooterView::Names(list)),
                Err(e) => Err(e),
            }
        } else if bytes.len() < data + zsize {
            Err(ArchiveError::Truncated)
        } else {
            Ok(FooterView::Compressed { data: bytes.subrange(data, data + zsize), size, count })
        }
    }
}

/// Footer round trip: a footer that starts with its magic number, gives
/// one size for its names and their compressed form, counts the names of
/// `list`, and holds their written form behind its fixed fields is read as
/// exactly these names, in their order.
pub proof fn lemma_footer_round_trip(bytes: Seq<u8>, list: Seq<Seq<char>>)
    requires
        bytes.len() >= HEADER_SIZE + 4,
        u32_at(bytes, HEADER_SIZE as int) != 0,
        bytes.len() >= HEADER_EXTENDED_SIZE + FOOTER_FIXED_SIZE + written_names(list).len(),
        u32_at(bytes, HEADER_EXTENDED_SIZE as int) == FOOTER_MAGIC,
        u32_at(bytes, HEADER_EXTENDED_SIZE + 8) == u32_at(bytes, HEADER_EXTENDED_SIZE + 12),
        u32_at(bytes, HEADER_EXTENDED_SIZE + 16) == list.len(),
        list.len() <= 0x7fff_ffff,
        bytes.subrange(
            HEADER_EXTENDED_SIZE + FOOTER_FIXED_SIZE,
            HEADER_EXTENDED_SIZE + FOOTER_FIXED_SIZE + written_names(list).len(),
        ) == written_names(list),
        free_of_zero(list),
    ensures
        footer_of(bytes) == Ok::<FooterView, ArchiveError>(FooterView::Names(list)),
{
    lemma_names_read_back(bytes, HEADER_EXTENDED_SIZE + FOOTER_FIXED_SIZE, list);
}

/// Reads the footer.
pub fn read_footer(bytes: &[u8]) -> (footer: Result<Footer, ArchiveError>)
    ensures
        footer matches Ok(f) ==> footer_of(bytes@) == Ok::<FooterView, ArchiveError>(f@),
        footer matches Err(e) ==> footer_of(bytes@) == Err::<FooterView, ArchiveError>(e),
{
    if bytes.len() < HEADER_SIZE + 4 || read_u32(bytes, HEADER_SIZE) == 0 {
        return Ok(Footer::Absent);
    }
    let at: usize = HEADER_EXTENDED_SIZE;
    let data_at: usize = HEADER_EXTENDED_SIZE + FOOTER_FIXED_SIZE;
    if bytes.len() < data_at {
        return Err(ArchiveError::Truncated);
    }
    if read_u32(bytes, at) != FOOTER_MAGIC {
        return Err(ArchiveError::InvalidFooterMagic);
    }
    let size: u32 = read_u32(bytes, at + 8);
    let zsize: u32 = read_u32(bytes, at + 12);
    let declared: u32 = read_u32(bytes, at + 16);
    let count: u32 = if declared > 0x7fff_ffff {
        0
    } else {
        declared
    };
    if size < zsize {
        return Err(ArchiveError::InvalidFooter);
    }
    if size == zsize {
        return match read_names(bytes, data_at, count) {
            Ok(list) => Ok(Footer::Names(list)),
            Err(e) => Err(e),
        };
    }
    if bytes.len() - data_at < zsize as usize {
        return Err(ArchiveError::Truncated);
    }
    let end: usize = data_at + zsize as usize;
    let mut data: Vec<u8> = Vec::new();
    let mut i: usize = data_at;
    while i < end
        invariant
            data_at <= i <= end <= bytes.len(),
            data@ == bytes@.subrange(data_at as int, i as int),
        decreases end - i,
    {
        data.push(bytes[i]);
        proof {
            assert(bytes@.subrange(data_at as int, i + 1) == bytes@.subrange(
                data_at as int,
                i as int,
            ).push(bytes@[i as int]));
        }
        i += 1;
    }
    Ok(Footer::Compressed { data, size, count })
}

/// The names of a compressed footer, given what came of expanding its
/// data: the expanded bytes, or `None` where they could not be expanded.
///
/// `DecompressionFailed` where nothing came or where it has not the
/// declared size.
pub open spec fn expanded_names(expanded: Option<Seq<u8>>, size: u32, count: u32) -> Result<
    Seq<Seq<char>>,
    ArchiveError,
> {
    match expanded {
        None => Err(ArchiveError::DecompressionFailed),
        Some(bytes) => if bytes.len() != size {
            Err(ArchiveError::DecompressionFailed)
        } else {
            names_at(bytes, 0, count as nat)
        },
    }
}

/// Reads the names of a compressed footer out of its expanded data.
pub fn read_expanded_names(expanded: Option<&[u8]>, size: u32, count: u32) -> (read: Result<
    Vec<String>,
    ArchiveError,
>)
    ensures
        read matches Ok(list) ==> expanded_names(
            match expanded {
                Some(bytes) => Some(bytes@),
                None => None,
            },
            size,
            count,
        ) == Ok::<Seq<Seq<char>>, ArchiveError>(texts(list@)),
        read matches Err(e) ==> expanded_names(
            match expanded {
                Some(bytes) => Some(bytes@),
                None => None,
            },
            size,
            count,
        ) == Err::<Seq<Seq<char>>, ArchiveError>(e),
{
    match expanded {
        None => Err(ArchiveError::DecompressionFailed),
        Some(bytes) => {
            if bytes.len() != size as usize {
                return Err(ArchiveError::DecompressionFailed);
            }
            read_names(bytes, 0, count)
        },
    }
}

/// The file entry in the bytes at `at`.
pub open spec fn entry_at(bytes: Seq<u8>, at: int) -> FileEntryView {
    FileEntryView {
        name_hash_64: u64_at(bytes, at),
        timestamp: u64_at(bytes, at + 8),
        num_inline_buffer_segments: u32_at(bytes, at + 16),
        segments_start: u32_at(bytes, at + 20),
        segments_end: u32_at(bytes, at + 24),
        resource_dependencies_start: u32_at(bytes, at + 28),
        resource_dependencies_end: u32_at(bytes, at + 32),
        sha1_hash: bytes.subrange(at + 36, at + FILE_ENTRY_SIZE),
    }
}

/// The first `count` file entries of the table at `at`, by their content
/// hashes. Of two entries with the same hash the later one stays.
pub open spec fn entries_of(bytes: Seq<u8>, at: int, count: nat) -> Map<u64, FileEntryView>
    decreases count,
{
    if count == 0 {
        Map::empty()
    } else {
        let last = entry_at(bytes, at + FILE_ENTRY_SIZE * (count - 1));
        entries_of(bytes, at, (count - 1) as nat).insert(last.name_hash_64, last)
    }
}

/// The entries stand in the order of their content hashes, and no two have
/// the same.
pub open spec fn in_hash_order(entries: Seq<FileEntry>) -> bool {
    forall|i: int, j: int|
        0 <= i < j < entries.len() ==> (#[trigger] entries[i]).name_hash_64 < (
        #[trigger] entries[j]).name_hash_64
}

/// Whether an entry of this content hash is listed.
pub open spec fn lists_hash(entries: Seq<FileEntry>, hash: u64) -> bool {
    exists|i: int| 0 <= i < entries.len() && (#[trigger] entries[i]).name_hash_64 == hash
}

/// The listed entries by their content hashes.
pub open spec fn entry_map(entries: Seq<FileEntry>) -> Map<u64, FileEntryView> {
    Map::new(
        |h: u64| lists_hash(entries, h),
        |h: u64|
            entries[choose|i: int|
                0 <= i < entries.len() && (#[trigger] entries[i]).name_hash_64 == h]@,
    )
}

/// Reads the file entry at `at`.
pub fn read_entry(bytes: &[u8], at: usize) -> (entry: FileEntry)
    requires
        at + FILE_ENTRY_SIZE <= bytes@.len(),
    ensures
        entry@ == entry_at(bytes@, at as int),
{
    let len: usize = bytes.len();
    let mut sha: Vec<u8> = Vec::new();
    let from: usize = at + 36;
    let mut i: usize = from;
    while i < at + FILE_ENTRY_SIZE
        invariant
            from == at + 36,
            from <= i <= at + FILE_ENTRY_SIZE <= bytes.len(),
            sha@ == bytes@.subrange(from as int, i as int),
        decreases at + FILE_ENTRY_SIZE - i,
    {
        sha.push(bytes[i]);
        proof {
            assert(bytes@.subrange(from as int, i + 1) == bytes@.subrange(
                from as int,
                i as int,
            ).push(bytes@[i as int]));
        }
        i += 1;
    }
    FileEntry {
        name_hash_64: read_u64(bytes, at),
        timestamp: read_u64(bytes, at + 8),
        num_inline_buffer_segments: read_u32(bytes, at + 16),
        segments_start: read_u32(bytes, at + 20),
        segments_end: read_u32(bytes, at + 24),
        resource_dependencies_start: read_u32(bytes, at + 28),
        resource_dependencies_end: read_u32(bytes, at + 32),
        sha1_hash: sha,
    }
}

/// Puts `entry` among `entries`, in the place of the entry with the same
/// content hash where there is one.
pub fn insert_entry(entries: &mut Vec<FileEntry>, entry: FileEntry)
    requires
        in_hash_order(old(entries)@),
    ensures
        in_hash_order(final(entries)@),
        entry_map(final(entries)@) == entry_map(old(entries)@).insert(entry.name_hash_64, entry@),
{
    let ghost before = entries@;
    let hash: u64 = entry.name_hash_64;
    let mut at: usize = 0;
    while at < entries.len() && entries[at].name_hash_64 < hash
        invariant
            at <= entries.len(),
            entries@ == before,
            forall|i: int| 0 <= i < at ==> (#[trigger] before[i]).name_hash_64 < hash,
        decreases entries.len() - at,
    {
        at += 1;
    }
    let replace = at < entries.len() && entries[at].name_hash_64 == hash;
    if replace {
        entries.set(at, entry);
    } else {
        entries.insert(at, entry);
    }
    proof {
        let after = entries@;
        let spot = |i: int|
            if replace || i < at {
                i
            } else {
                i + 1
            };
        assert forall|i: int| 0 <= i < before.len() && i != at implies after[spot(i)]
            == #[trigger] before[i] by {}
        assert(!replace ==> (0 <= at < before.len() ==> after[at + 1] == before[at as int]));
        assert(after[at as int] == entry);
        assert forall|i: int, j: int| 0 <= i < j < after.len() implies (
        #[trigger] after[i]).name_hash_64 < (#[trigger] after[j]).name_hash_64 by {
            let back = |i: int|
                if replace || i < at {
                    i
                } else {
                    i - 1
                };
            if i != at {
                assert(after[i] == before[back(i)]);
            }
            if j != at {
                assert(after[j] == before[back(j)]);
            }
            if i != at && j != at {
                assert(before[back(i)].name_hash_64 < before[back(j)].name_hash_64);
            } else if i == at {
                if back(j) > at {
                    assert(before[at as int].name_hash_64 < before[back(j)].name_hash_64);
                }
            }
        }
        assert forall|h: u64| lists_hash(after, h) <==> lists_hash(before, h) || h == hash by {
            if lists_hash(after, h) && h != hash {
                let i = choose|i: int| 0 <= i < after.len() && (#[trigger] after[i]).name_hash_64 == h;
                let b = if replace || i < at {
                    i
                } else {
                    i - 1
                };
                assert(before[b].name_hash_64 == h);
            }
            if lists_hash(before, h) && h != hash {
                let i = choose|i: int|
                    0 <= i < before.len() && (#[trigger] before[i]).name_hash_64 == h;
                assert(after[spot(i)].name_hash_64 == h);
            }
            assert(after[at as int].name_hash_64 == hash);
        }
        assert forall|h: u64| lists_hash(after, h) implies #[trigger] entry_map(after)[h]
            == entry_map(before).insert(hash, entry@)[h] by {
            let i = choose|i: int| 0 <= i < after.len() && (#[trigger] after[i]).name_hash_64 == h;
            if h == hash {
                assert(after[at as int].name_hash_64 == hash);
                assert(i == at);
            } else {
                let b = if replace || i < at {
                    i
                } else {
                    i - 1
                };
                assert(before[b] == after[i]);
                let c = choose|c: int|
                    0 <= c < before.len() && (#[trigger] before[c]).name_hash_64 == h;
                assert(c == b);
            }
        }
        assert(entry_map(after) =~= entry_map(before).insert(hash, entry@));
    }
}

/// An index as plain values.
pub struct IndexView {
    pub file_table_offset: u32,
    pub file_table_size: u32,
    pub crc: u64,
    pub file_entry_count: u32,
    pub file_segment_count: u32,
    pub resource_dependency_count: u32,
    pub file_entries: Map<u64, FileEntryView>,
}

impl View for Index {
    type V = IndexView;

    open spec fn view(&self) -> IndexView {
        IndexView {
            file_table_offset: self.file_table_offset,
            file_table_size: self.file_table_size,
            crc: self.crc,
            file_entry_count: self.file_entry_count,
            file_segment_count: self.file_segment_count,
            resource_dependency_count: self.resource_dependency_count,
            file_entries: entry_map(self.file_entries@),
        }
    }
}

/// The index that stands at `position`: its fixed fields, and behind them
/// as many file entries as its entry count says.
pub open spec fn index_of(bytes: Seq<u8>, position: u64) -> Result<IndexView, ArchiveError> {
    let at = position as int;
    let table = at + INDEX_FIXED_SIZE;
    if bytes.len() < table {
        Err(ArchiveError::Truncated)
    } else {
        let count = u32_at(bytes, at + 16);
        if bytes.len() < table + FILE_ENTRY_SIZE * count {
            Err(ArchiveError::Truncated)
        } else {
            Ok(
                IndexView {
                    file_table_offset: u32_at(bytes, at),
                    file_table_size: u32_at(bytes, at + 4),
                    crc: u64_at(bytes, at + 8),
                    file_entry_count: count,
                    file_segment_count: u32_at(bytes, at + 20),
                    resource_dependency_count: u32_at(bytes, at + 24),
                    file_entries: entries_of(bytes, table, count as nat),
                },
            )
        }
    }
}

/// Reads the index that stands at `position`. Its checksum is taken as it
/// is, and the tables behind the file entries are not read.
pub fn read_index(bytes: &[u8], position: u64) -> (index: Result<Index, ArchiveError>)
    ensures
        index matches Ok(i) ==> index_of(bytes@, position) == Ok::<IndexView, ArchiveError>(i@)
            && in_hash_order(i.file_entries@),
        index matches Err(e) ==> index_of(bytes@, position) == Err::<IndexView, ArchiveError>(e),
{
    let len: usize = bytes.len();
    if position > len as u64 || len - (position as usize) < INDEX_FIXED_SIZE {
        return Err(ArchiveError::Truncated);
    }
    let at: usize = position as usize;
    let table: usize = at + INDEX_FIXED_SIZE;
    let count: u32 = read_u32(bytes, at + 16);
    if ((len - table) / FILE_ENTRY_SIZE) < count as usize {
        proof {
            assert(len < table + FILE_ENTRY_SIZE * count) by (nonlinear_arith)
                requires
                    ((len - table) / (FILE_ENTRY_SIZE as int)) < count,
                    FILE_ENTRY_SIZE == 56,
                    table <= len,
            ;
        }
        return Err(ArchiveError::Truncated);
    }
    proof {
        assert(table + FILE_ENTRY_SIZE * count <= len) by (nonlinear_arith)
            requires
                ((len - table) / (FILE_ENTRY_SIZE as int)) >= count,
                FILE_ENTRY_SIZE == 56,
                table <= len,
        ;
    }
    let mut entries: Vec<FileEntry> = Vec::new();
    let mut k: u32 = 0;
    proof {
        assert(entry_map(entries@) =~= entries_of(bytes@, table as int, 0));
    }
    while k < count
        invariant
            k <= count,
            table + FILE_ENTRY_SIZE * count <= bytes.len(),
            in_hash_order(entries@),
            entry_map(entries@) == entries_of(bytes@, table as int, k as nat),
        decreases count - k,
    {
        proof {
            assert(FILE_ENTRY_SIZE * (k + 1) <= FILE_ENTRY_SIZE * count) by (nonlinear_arith)
                requires
                    k + 1 <= count,
                    FILE_ENTRY_SIZE == 56,
            ;
        }
        let entry = read_entry(bytes, table + FILE_ENTRY_SIZE * (k as usize));
        insert_entry(&mut entries, entry);
        k += 1;
    }
    Ok(
        Index {
            file_table_offset: read_u32(bytes, at),
            file_table_size: read_u32(bytes, at + 4),
            crc: read_u64(bytes, at + 8),
            file_entry_count: count,
            file_segment_count: read_u32(bytes, at + 20),
            resource_dependency_count: read_u32(bytes, at + 24),
            file_entries: entries,
        },
    )
}

/// The content hashes of a list of entries, in the order of the list.
pub open spec fn hashes_of(entries: Seq<FileEntry>) -> Seq<u64> {
    entries.map_values(|e: FileEntry| e.name_hash_64)
}

/// Entries in hash order have no hash twice, and their hashes rise.
pub proof fn lemma_hashes_rise(entries: Seq<FileEntry>)
    requires
        in_hash_order(entries),
    ensures
        hashes_of(entries).no_duplicates(),
        forall|i: int, j: int|
            0 <= i < j < entries.len() ==> hashes_of(entries)[i] < hashes_of(entries)[j],
        forall|h: u64| hashes_of(entries).contains(h) <==> entry_map(entries).contains_key(h),
{
    assert forall|h: u64| hashes_of(entries).contains(h) <==> entry_map(entries).contains_key(
        h,
    ) by {
        if hashes_of(entries).contains(h) {
            let i = choose|i: int| 0 <= i < entries.len() && hashes_of(entries)[i] == h;
            assert(entries[i].name_hash_64 == h);
        }
        if lists_hash(entries, h) {
            let i = choose|i: int| 0 <= i < entries.len() && (#[trigger] entries[i]).name_hash_64 == h;
            assert(hashes_of(entries)[i] == h);
        }
    }
}

impl Index {
    /// Whether the entries stand in the order of their content hashes, no
    /// two with the same.
    pub fn is_in_hash_order(&self) -> (ordered: bool)
        ensures
            ordered == in_hash_order(self.file_entries@),
    {
        let ghost entries = self.file_entries@;
        let mut i: usize = 1;
        while i < self.file_entries.len()
            invariant
                1 <= i,
                entries == self.file_entries@,
                forall|a: int, b: int|
                    0 <= a < b < i && b < entries.len() ==> (#[trigger] entries[a]).name_hash_64 < (
                    #[trigger] entries[b]).name_hash_64,
            decreases self.file_entries.len() - i,
        {
            if self.file_entries[i - 1].name_hash_64 >= self.file_entries[i].name_hash_64 {
                proof {
                    assert(!(entries[i - 1].name_hash_64 < entries[i as int].name_hash_64));
                }
                return false;
            }
            proof {
                assert forall|a: int, b: int| 0 <= a < b < i + 1 && b < entries.len() implies (
                #[trigger] entries[a]).name_hash_64 < (#[trigger] entries[b]).name_hash_64 by {
                    if b == i && a < i - 1 {
                        assert(entries[a].name_hash_64 < entries[i - 1].name_hash_64);
                    }
                }
            }
            i += 1;
        }
        true
    }

    /// The content hashes of the files, in the order of the entries. For
    /// an index that was read they rise: they are the hashes that the index
    /// maps to an entry, sorted, each once.
    pub fn content_hashes(&self) -> (hashes: Vec<u64>)
        ensures
            hashes@ == hashes_of(self.file_entries@),
            in_hash_order(self.file_entries@) ==> {
                &&& forall|i: int, j: int| 0 <= i < j < hashes@.len() ==> hashes@[i] < hashes@[j]
                &&& forall|h: u64| hashes@.contains(h) <==> self@.file_entries.contains_key(h)
            },
    {
        proof {
            if in_hash_order(self.file_entries@) {
                lemma_hashes_rise(self.file_entries@);
            }
        }
        let mut hashes: Vec<u64> = Vec::new();
        let mut i: usize = 0;
        while i < self.file_entries.len()
            invariant
                i <= self.file_entries.len(),
                hashes@ == hashes_of(self.file_entries@).subrange(0, i as int),
            decreases self.file_entries.len() - i,
        {
            hashes.push(self.file_entries[i].name_hash_64);
            proof {
                let all = hashes_of(self.file_entries@);
                assert(all.subrange(0, i + 1) == all.subrange(0, i as int).push(all[i as int]));
            }
            i += 1;
        }
        proof {
            let all = hashes_of(self.file_entries@);
            assert(all.subrange(0, i as int) == all);
        }
        hashes
    }

    /// The entry of the file with this content hash.
    pub fn get_entry(&self, hash: u64) -> (entry: Option<&FileEntry>)
        ensures
            entry is Some <==> lists_hash(self.file_entries@, hash),
            entry matches Some(e) ==> e.name_hash_64 == hash && self.file_entries@.contains(*e),
    {
        let mut i: usize = 0;
        while i < self.file_entries.len()
            invariant
                i <= self.file_entries.len(),
                forall|k: int| 0 <= k < i ==> (#[trigger] self.file_entries@[k]).name_hash_64 != hash,
            decreases self.file_entries.len() - i,
        {
            if self.file_entries[i].name_hash_64 == hash {
                return Some(&self.file_entries[i]);
            }
            i += 1;
        }
        None
    }
}

/// An archive as plain values.
pub struct ArchiveView {
    pub header: Header,
    pub index: IndexView,
    pub file_names: Option<Seq<Seq<char>>>,
}

impl View for Archive {
    type V = ArchiveView;

    open spec fn view(&self) -> ArchiveView {
        ArchiveView {
            header: self.header,
            index: self.index@,
            file_names: match self.file_names {
                Some(list) => Some(texts(list@)),
                None => None,
            },
        }
    }
}

impl Archive {
    /// The content hashes of the files of the archive, in the order of the
    /// entries of its index. For an archive that was read they rise: they
    /// are the hashes that the index maps to an entry, sorted, each once.
    pub fn content_hashes(&self) -> (hashes: Vec<u64>)
        ensures
            hashes@ == hashes_of(self.index.file_entries@),
            in_hash_order(self.index.file_entries@) ==> {
                &&& forall|i: int, j: int| 0 <= i < j < hashes@.len() ==> hashes@[i] < hashes@[j]
                &&& forall|h: u64| hashes@.contains(h) <==> self@.index.file_entries.contains_key(h)
            },
    {
        self.index.content_hashes()
    }
}

/// The names that an archive with this footer carries, given what came of
/// expanding the data of a compressed footer.
pub open spec fn names_of(footer: FooterView, expanded: Option<Seq<u8>>) -> Result<
    Option<Seq<Seq<char>>>,
    ArchiveError,
> {
    match footer {
        FooterView::Absent => Ok(None),
        FooterView::Names(list) => Ok(Some(list)),
        FooterView::Compressed { data, size, count } => match expanded_names(expanded, size, count) {
            Ok(list) => Ok(Some(list)),
            Err(e) => Err(e),
        },
    }
}

/// The archive that `bytes` hold, given what came of expanding the data of
/// a compressed footer. The header is read first, then the footer, then
/// the index, and the first that fails gives the error.
pub open spec fn archive_of(bytes: Seq<u8>, expanded: Option<Seq<u8>>) -> Result<
    ArchiveView,
    ArchiveError,
> {
    if bytes.len() < HEADER_SIZE {
        Err(ArchiveError::Truncated)
    } else {
        match footer_of(bytes) {
            Err(e) => Err(e),
            Ok(footer) => match names_of(footer, expanded) {
                Err(e) => Err(e),
                Ok(file_names) => match index_of(bytes, header_of(bytes).index_position) {
                    Err(e) => Err(e),
                    Ok(index) => Ok(ArchiveView { header: header_of(bytes), index, file_names }),
                },
            },
        }
    }
}

/// An archive with such a footer is read with exactly these names, in
/// their order, whatever the index holds; it fails only where its index
/// cannot be read.
pub proof fn lemma_archive_round_trip(
    bytes: Seq<u8>,
    list: Seq<Seq<char>>,
    expanded: Option<Seq<u8>>,
)
    requires
        bytes.len() >= HEADER_SIZE + 4,
        u32_at(bytes, HEADER_SIZE as int) != 0,
        bytes.len() >= HEADER_EXTENDED_SIZE + FOOTER_FIXED_SIZE + written_names(list).len(),
        u32_at(bytes, HEADER_EXTENDED_SIZE as int) == FOOTER_MAGIC,
        u32_at(bytes, HEADER_EXTENDED_SIZE + 8) == u32_at(bytes, HEADER_EXTENDED_SIZE + 12),
        u32_at(bytes, HEADER_EXTENDED_SIZE + 16) == list.len(),
        list.len() <= 0x7fff_ffff,
        bytes.subrange(
            HEADER_EXTENDED_SIZE + FOOTER_FIXED_SIZE,
            HEADER_EXTENDED_SIZE + FOOTER_FIXED_SIZE + written_names(list).len(),
        ) == written_names(list),
        free_of_zero(list),
    ensures
        archive_of(bytes, expanded) == match index_of(bytes, header_of(bytes).index_position) {
            Ok(index) => Ok::<ArchiveView, ArchiveError>(
                ArchiveView { header: header_of(bytes), index, file_names: Some(list) },
            ),
            Err(e) => Err(e),
        },
{
    lemma_footer_round_trip(bytes, list);
}

/// An archive whose names have yet to be expanded.
pub struct PendingArchive {
    pub header: Header,
    /// What came of reading the index
    pub index: Result<Index, ArchiveError>,
    /// The compressed names
    pub data: Vec<u8>,
    /// The size of the expanded names
    pub size: u32,
    /// The number of names
    pub count: u32,
}

/// How far an archive was read.
pub enum ReadStep {
    /// The archive was read.
    Done(Archive),
    /// The names of the archive are compressed. The data of the pending
    /// archive has to be expanded to its size, and the archive is read
    /// once `finish` gets what came of that.
    Expand(PendingArchive),
}

impl PendingArchive {
    /// The entries of the index, where it was read, stand in the order of
    /// their content hashes, and no two have the same.
    pub open spec fn well_formed(&self) -> bool {
        self.index matches Ok(index) ==> in_hash_order(index.file_entries@)
    }

    /// The archive that comes of these expanded names.
    pub open spec fn outcome(&self, expanded: Option<Seq<u8>>) -> Result<ArchiveView, ArchiveError> {
        match expanded_names(expanded, self.size, self.count) {
            Err(e) => Err(e),
            Ok(list) => match self.index {
                Err(e) => Err(e),
                Ok(index) => Ok(
                    ArchiveView { header: self.header, index: index@, file_names: Some(list) },
                ),
            },
        }
    }

    /// Ends the reading of the archive with what came of expanding its
    /// names: the expanded bytes, or `None` where they could not be
    /// expanded. The archive has the header and the index of the pending
    /// archive, and with them the order of its entries.
    pub fn finish(self, expanded: Option<&[u8]>) -> (archive: Result<Archive, ArchiveError>)
        ensures
            archive matches Ok(a) ==> self.index matches Ok(index) && a.index == index && a.header
                == self.header,
            archive matches Ok(a) ==> (self.well_formed() ==> in_hash_order(
                a.index.file_entries@,
            )),
            archive matches Ok(a) ==> self.outcome(
                match expanded {
                    Some(bytes) => Some(bytes@),
                    None => None,
                },
            ) == Ok::<ArchiveView, ArchiveError>(a@),
            archive matches Err(e) ==> self.outcome(
                match expanded {
                    Some(bytes) => Some(bytes@),
                    None => None,
                },
            ) == Err::<ArchiveView, ArchiveError>(e),
    {
        let list = match read_expanded_names(expanded, self.size, self.count) {
            Ok(list) => list,
            Err(e) => {
                return Err(e);
            },
        };
        match self.index {
            Err(e) => Err(e),
            Ok(index) => Ok(Archive { header: self.header, index, file_names: Some(list) }),
        }
    }
}

/// Reads an archive from its bytes.
///
/// Where the names of the archive are compressed the result is a pending
/// archive, which says what has to be expanded. The entries of the index
/// that was read stand in the order of their content hashes, and no two
/// have the same: the content hashes of the archive are the hashes that
/// its index maps to an entry, sorted, each once.
pub fn open_read(bytes: &[u8]) -> (read: Result<ReadStep, ArchiveError>)
    ensures
        read matches Ok(ReadStep::Done(a)) ==> in_hash_order(a.index.file_entries@),
        read matches Ok(ReadStep::Expand(p)) ==> p.well_formed(),
        read matches Err(e) ==> forall|expanded: Option<Seq<u8>>| #[trigger]
            archive_of(bytes@, expanded) == Err::<ArchiveView, ArchiveError>(e),
        read matches Ok(ReadStep::Done(a)) ==> forall|expanded: Option<Seq<u8>>| #[trigger]
            archive_of(bytes@, expanded) == Ok::<ArchiveView, ArchiveError>(a@),
        read matches Ok(ReadStep::Expand(p)) ==> footer_of(bytes@) == Ok::<
            FooterView,
            ArchiveError,
        >(FooterView::Compressed { data: p.data@, size: p.size, count: p.count })
            && forall|expanded: Option<Seq<u8>>| #[trigger]
            archive_of(bytes@, expanded) == p.outcome(expanded),
{
    let header = match read_header(bytes) {
        Ok(header) => header,
        Err(e) => {
            return Err(e);
        },
    };
    let footer = match read_footer(bytes) {
        Ok(footer) => footer,
        Err(e) => {
            return Err(e);
        },
    };
    let index = read_index(bytes, header.index_position);
    match footer {
        Footer::Compressed { data, size, count } => Ok(
            ReadStep::Expand(PendingArchive { header, index, data, size, count }),
        ),
        Footer::Names(list) => match index {
            Ok(index) => Ok(ReadStep::Done(Archive { header, index, file_names: Some(list) })),
            Err(e) => Err(e),
        },
        Footer::Absent => match index {
            Ok(index) => Ok(ReadStep::Done(Archive { header, index, file_names: None })),
            Err(e) => Err(e),
        },
    }
}

} // verus!
