//! The text descriptor of a VMDK image.
//!
//! A descriptor is a text file of sections. A line that starts with `#` begins a section, and the
//! lines behind it hold the section's values: the header, the list of extents and the disk
//! database.

use vstd::hash_map::StringHashMap;
use vstd::prelude::*;
use vstd::string::StrSliceExecFns;
use vstd::utf8::{decode_utf8, valid_utf8};

use crate::error::VmdkErrorKind;
use crate::lines::{
    as_text, behind_lines, is_row, law_lines_of_text, lines, Line, LineReader,
};
use crate::path::{parent, parent_of};
use crate::text::{
    decimal, is_word, joined, key_value, law_decimal_reads_back, law_joined_words_split,
    law_key_and_value, law_stripping_leaves_the_core, number, parse_number, same_text, split_key_value, split_words, strip, stripped,
    texts, words, Padding,
};

verus! {

/// The line that a descriptor begins with.
pub const VMDK_DESCRIPTOR_HEADER: &'static str = "# Disk DescriptorFile";

/// The line that begins the list of extents.
pub const VMDK_DESCRIPTOR_EXTENTS: &'static str = "# Extent description";

/// The line that begins the disk database.
pub const VMDK_DESCRIPTOR_DDB: &'static str = "# The Disk Data Base";

/// Another line that begins the disk database.
pub const VMDK_DESCRIPTOR_DDB_2: &'static str = "#DDB";

/// The types of VMDK disk formats. Only flat ones are supported.
#[derive(Clone, Copy, Debug, PartialEq, Eq, Structural)]
pub enum VMDKDiskType {
    CreateTypeUnsupported,
    MonolithicFlat,
    TwoGbMaxExtentFlat,
}

impl Default for VMDKDiskType {
    fn default() -> (res: Self)
        ensures
            res == VMDKDiskType::CreateTypeUnsupported,
    {
        VMDKDiskType::CreateTypeUnsupported
    }
}

/// One line of the list of extents:
/// `<access> <size in sectors> <type of extent> <filename>`,
/// for instance `RW 2097152 FLAT "disk-s001.vmdk"`.
#[derive(Debug)]
pub struct VmdkExtentHeader {
    pub access: String,
    pub size_in_sectors: u64,
    pub extent_type: String,
    pub filename: String,
}

/// The header section.
#[derive(Debug)]
pub struct VmdkDescriptorHeader {
    pub version: u32,
    pub cid: u32,
    pub parent_cid: u32,
    pub create_type: VMDKDiskType,
    pub parent_filename_hint: String,
}

/// The list of extents.
#[derive(Debug)]
pub struct VmdkDescriptorExtents {
    pub extents: Vec<VmdkExtentHeader>,
}

/// The disk database: keys and their values.
pub struct VmdkDescriptorDdb {
    pub entries: StringHashMap<String>,
}

/// A descriptor: the directory it was found in, and its three sections.
pub struct VmdkDescriptor {
    pub base_path: String,
    pub header: VmdkDescriptorHeader,
    pub extents_list: VmdkDescriptorExtents,
    pub ddb: VmdkDescriptorDdb,
}

/// What an extent line says.
pub struct ExtentLine {
    pub access: Seq<char>,
    pub size_in_sectors: u64,
    pub extent_type: Seq<char>,
    pub filename: Seq<char>,
}

/// What a header section says.
pub struct HeaderSection {
    pub version: u32,
    pub cid: u32,
    pub parent_cid: u32,
    pub create_type: VMDKDiskType,
    pub parent_filename_hint: Seq<char>,
}

/// What a descriptor says.
pub struct DescriptorText {
    pub base_path: Seq<char>,
    pub header: HeaderSection,
    pub extents: Seq<ExtentLine>,
    pub ddb: Map<Seq<char>, Seq<char>>,
}

impl View for VmdkExtentHeader {
    type V = ExtentLine;

    open spec fn view(&self) -> ExtentLine {
        ExtentLine {
            access: self.access@,
            size_in_sectors: self.size_in_sectors,
            extent_type: self.extent_type@,
            filename: self.filename@,
        }
    }
}

impl View for VmdkDescriptorHeader {
    type V = HeaderSection;

    open spec fn view(&self) -> HeaderSection {
        HeaderSection {
            version: self.version,
            cid: self.cid,
            parent_cid: self.parent_cid,
            create_type: self.create_type,
            parent_filename_hint: self.parent_filename_hint@,
        }
    }
}

impl View for VmdkDescriptorExtents {
    type V = Seq<ExtentLine>;

    open spec fn view(&self) -> Seq<ExtentLine> {
        self.extents@.map_values(|e: VmdkExtentHeader| e@)
    }
}

impl View for VmdkDescriptorDdb {
    type V = Map<Seq<char>, Seq<char>>;

    open spec fn view(&self) -> Map<Seq<char>, Seq<char>> {
        self.entries@.map_values(|v: String| v@)
    }
}

impl View for VmdkDescriptor {
    type V = DescriptorText;

    open spec fn view(&self) -> DescriptorText {
        DescriptorText {
            base_path: self.base_path@,
            header: self.header@,
            extents: self.extents_list@,
            ddb: self.ddb@,
        }
    }
}

/// A header section without a line.
pub open spec fn empty_header() -> HeaderSection {
    HeaderSection {
        version: 0,
        cid: 0,
        parent_cid: 0,
        create_type: VMDKDiskType::CreateTypeUnsupported,
        parent_filename_hint: Seq::empty(),
    }
}

impl Default for VmdkExtentHeader {
    fn default() -> (res: Self)
        ensures
            res@ == (ExtentLine {
                access: Seq::empty(),
                size_in_sectors: 0,
                extent_type: Seq::empty(),
                filename: Seq::empty(),
            }),
    {
        VmdkExtentHeader {
            access: String::new(),
            size_in_sectors: 0,
            extent_type: String::new(),
            filename: String::new(),
        }
    }
}

impl Default for VmdkDescriptorHeader {
    fn default() -> (res: Self)
        ensures
            res@ == empty_header(),
    {
        VmdkDescriptorHeader {
            version: 0,
            cid: 0,
            parent_cid: 0,
            create_type: VMDKDiskType::CreateTypeUnsupported,
            parent_filename_hint: String::new(),
        }
    }
}

impl Default for VmdkDescriptorExtents {
    fn default() -> (res: Self)
        ensures
            res@ == Seq::<ExtentLine>::empty(),
    {
        VmdkDescriptorExtents { extents: Vec::new() }
    }
}

impl Default for VmdkDescriptorDdb {
    fn default() -> (res: Self)
        ensures
            res@ == Map::<Seq<char>, Seq<char>>::empty(),
    {
        VmdkDescriptorDdb { entries: StringHashMap::new() }
    }
}

impl Default for VmdkDescriptor {
    fn default() -> (res: Self)
        ensures
            res@ == (DescriptorText {
                base_path: Seq::empty(),
                header: empty_header(),
                extents: Seq::empty(),
                ddb: Map::empty(),
            }),
    {
        VmdkDescriptor {
            base_path: String::new(),
            header: VmdkDescriptorHeader::default(),
            extents_list: VmdkDescriptorExtents::default(),
            ddb: VmdkDescriptorDdb::default(),
        }
    }
}

/// Why a text is no descriptor.
#[derive(Clone, Copy, Debug, PartialEq, Eq, Structural)]
pub enum DescriptorError {
    /// The path has no parent directory.
    NoParentDirectory,
    /// The file is too short to be a descriptor.
    TooSmall,
    /// A line is not valid UTF-8.
    InvalidUtf8,
    /// The text does not begin with the header line.
    MissingHeader,
    /// The section behind the header is not the list of extents.
    NotExtentsSection,
    /// A section that begins behind the extents is not the disk database.
    UnexpectedComment,
}

impl DescriptorError {
    /// The class of the error.
    pub open spec fn spec_kind(self) -> VmdkErrorKind {
        if self == DescriptorError::NoParentDirectory {
            VmdkErrorKind::InvalidInput
        } else {
            VmdkErrorKind::InvalidData
        }
    }

    /// The class of the error.
    pub fn kind(&self) -> (res: VmdkErrorKind)
        ensures
            res == self.spec_kind(),
    {
        match self {
            DescriptorError::NoParentDirectory => VmdkErrorKind::InvalidInput,
            _ => VmdkErrorKind::InvalidData,
        }
    }

    /// The error in words.
    pub fn message(&self) -> (res: &'static str)
        ensures
            res@ == match self {
                DescriptorError::NoParentDirectory
                    => "Cannot retrieve parent directory of the file"@,
                DescriptorError::TooSmall
                    => "Invalid VMDK descriptor file: file is empty or too small"@,
                DescriptorError::InvalidUtf8 => "stream did not contain valid UTF-8"@,
                DescriptorError::MissingHeader => "Not a VMDK descriptor file: missing header"@,
                DescriptorError::NotExtentsSection
                    => "Received NON Extents section comment line, expected Extents section comment line"@,
                DescriptorError::UnexpectedComment
                    => "Received unexpected comment line, expected DDB section comment line"@,
            },
    {
        match self {
            DescriptorError::NoParentDirectory => "Cannot retrieve parent directory of the file",
            DescriptorError::TooSmall => "Invalid VMDK descriptor file: file is empty or too small",
            DescriptorError::InvalidUtf8 => "stream did not contain valid UTF-8",
            DescriptorError::MissingHeader => "Not a VMDK descriptor file: missing header",
            DescriptorError::NotExtentsSection
                => "Received NON Extents section comment line, expected Extents section comment line",
            DescriptorError::UnexpectedComment
                => "Received unexpected comment line, expected DDB section comment line",
        }
    }
}

/// The line begins a section.
pub open spec fn is_comment(line: Seq<char>) -> bool {
    line.len() > 0 && line[0] == '#'
}

/// The number that `s` stands for in the given radix, or 0 where it stands for none of at most
/// `max`.
pub open spec fn number_or_zero(s: Seq<char>, radix: nat, max: nat) -> nat {
    match number(s, radix, max) {
        Some(n) => n,
        None => 0,
    }
}

/// The disk type that the value of `createType` names.
pub open spec fn disk_type(value: Seq<char>) -> VMDKDiskType {
    if value == "monolithicFlat"@ {
        VMDKDiskType::MonolithicFlat
    } else if value == "twoGbMaxExtentFlat"@ {
        VMDKDiskType::TwoGbMaxExtentFlat
    } else {
        VMDKDiskType::CreateTypeUnsupported
    }
}

/// The header once `key` was set to `value`. Keys that it does not know change nothing.
pub open spec fn header_set(h: HeaderSection, key: Seq<char>, value: Seq<char>) -> HeaderSection {
    if key == "version"@ {
        HeaderSection { version: number_or_zero(value, 10, u32::MAX as nat) as u32, ..h }
    } else if key == "CID"@ {
        HeaderSection { cid: number_or_zero(value, 16, u32::MAX as nat) as u32, ..h }
    } else if key == "parentCID"@ {
        HeaderSection { parent_cid: number_or_zero(value, 16, u32::MAX as nat) as u32, ..h }
    } else if key == "createType"@ {
        HeaderSection { create_type: disk_type(value), ..h }
    } else if key == "parentFileNameHint"@ {
        HeaderSection { parent_filename_hint: value, ..h }
    } else {
        h
    }
}

/// The header once the line was read. A line that is no `key = value` changes nothing.
pub open spec fn header_line(h: HeaderSection, line: Seq<char>) -> HeaderSection {
    match key_value(line) {
        Some((key, value)) => header_set(h, key, value),
        None => h,
    }
}

/// What the lines of a header section add to `h`, up to the line that begins the next section: the
/// header, that line (empty where there is none), and the lines behind it.
pub open spec fn header_section(h: HeaderSection, rest: Seq<Seq<u8>>) -> Result<
    (HeaderSection, Seq<char>, Seq<Seq<u8>>),
    DescriptorError,
>
    decreases rest.len(),
{
    if rest.len() == 0 {
        Ok((h, Seq::empty(), rest))
    } else if !valid_utf8(rest[0]) {
        Err(DescriptorError::InvalidUtf8)
    } else {
        let line = decode_utf8(rest[0]);
        if is_comment(line) {
            Ok((h, line, rest.skip(1)))
        } else {
            header_section(header_line(h, line), rest.skip(1))
        }
    }
}

/// The header that a descriptor begins with: its first line, and its section.
pub open spec fn header_of(text: Seq<Seq<u8>>) -> Result<
    (HeaderSection, Seq<char>, Seq<Seq<u8>>),
    DescriptorError,
> {
    if text.len() == 0 {
        Err(DescriptorError::MissingHeader)
    } else if !valid_utf8(text[0]) {
        Err(DescriptorError::InvalidUtf8)
    } else if decode_utf8(text[0]) != VMDK_DESCRIPTOR_HEADER@ {
        Err(DescriptorError::MissingHeader)
    } else {
        header_section(empty_header(), text.skip(1))
    }
}

/// The lines behind the one at which a header section ends: the line that begins the next section,
/// or one that is not valid UTF-8.
pub open spec fn behind_header_section(rest: Seq<Seq<u8>>) -> Seq<Seq<u8>>
    decreases rest.len(),
{
    if rest.len() == 0 {
        rest
    } else if !valid_utf8(rest[0]) || is_comment(decode_utf8(rest[0])) {
        rest.skip(1)
    } else {
        behind_header_section(rest.skip(1))
    }
}

/// The lines that reading the header leaves: those behind the first one where that is not the
/// header line, else those behind the header section.
pub open spec fn behind_header(text: Seq<Seq<u8>>) -> Seq<Seq<u8>> {
    if text.len() == 0 {
        text
    } else if !valid_utf8(text[0]) || decode_utf8(text[0]) != VMDK_DESCRIPTOR_HEADER@ {
        text.skip(1)
    } else {
        behind_header_section(text.skip(1))
    }
}

/// The extent that a line describes. A line of fewer than four words describes none; what stands
/// behind the fourth does not count.
pub open spec fn extent_line(line: Seq<char>) -> Option<ExtentLine> {
    let parts = words(line);
    if parts.len() >= 4 {
        Some(
            ExtentLine {
                access: parts[0],
                size_in_sectors: number_or_zero(parts[1], 10, u64::MAX as nat) as u64,
                extent_type: parts[2],
                filename: stripped(parts[3], Padding::Quotes),
            },
        )
    } else {
        None
    }
}

/// What the sections behind the header say.
pub struct Body {
    pub in_extents_section: bool,
    pub extents: Seq<ExtentLine>,
    pub ddb: Map<Seq<char>, Seq<char>>,
}

/// The sections behind the header, at the beginning of the list of extents.
pub open spec fn empty_body() -> Body {
    Body { in_extents_section: true, extents: Seq::empty(), ddb: Map::empty() }
}

/// The sections once a line was read that begins none.
pub open spec fn body_line(b: Body, line: Seq<char>) -> Body {
    if b.in_extents_section {
        match extent_line(line) {
            Some(e) => Body { extents: b.extents.push(e), ..b },
            None => b,
        }
    } else {
        match key_value(line) {
            Some((key, value)) => Body { ddb: b.ddb.insert(key, value), ..b },
            None => b,
        }
    }
}

/// What the lines behind the header add to `b`. The only section that may begin there is the disk
/// database.
pub open spec fn body_sections(b: Body, rest: Seq<Seq<u8>>) -> Result<Body, DescriptorError>
    decreases rest.len(),
{
    if rest.len() == 0 {
        Ok(b)
    } else if !valid_utf8(rest[0]) {
        Err(DescriptorError::InvalidUtf8)
    } else {
        let line = decode_utf8(rest[0]);
        if !is_comment(line) {
            body_sections(body_line(b, line), rest.skip(1))
        } else if line == VMDK_DESCRIPTOR_DDB@ || line == VMDK_DESCRIPTOR_DDB_2@ {
            body_sections(Body { in_extents_section: false, ..b }, rest.skip(1))
        } else {
            Err(DescriptorError::UnexpectedComment)
        }
    }
}

/// The list of extents and the disk database, given the line that begins them.
pub open spec fn body_of(last_comment_line: Seq<char>, rest: Seq<Seq<u8>>) -> Result<
    Body,
    DescriptorError,
> {
    if last_comment_line != VMDK_DESCRIPTOR_EXTENTS@ {
        Err(DescriptorError::NotExtentsSection)
    } else {
        body_sections(empty_body(), rest)
    }
}

/// The lines behind the one at which the sections behind the header end: one that begins a section
/// other than the disk database, or one that is not valid UTF-8. Where there is none, no line is
/// left.
pub open spec fn behind_body_sections(rest: Seq<Seq<u8>>) -> Seq<Seq<u8>>
    decreases rest.len(),
{
    if rest.len() == 0 {
        rest
    } else if !valid_utf8(rest[0]) || is_unexpected(decode_utf8(rest[0])) {
        rest.skip(1)
    } else {
        behind_body_sections(rest.skip(1))
    }
}

/// The line begins a section other than the disk database.
pub open spec fn is_unexpected(line: Seq<char>) -> bool {
    is_comment(line) && line != VMDK_DESCRIPTOR_DDB@ && line != VMDK_DESCRIPTOR_DDB_2@
}

/// The lines that reading the list of extents and the disk database leaves: all of them where they
/// do not begin with the list of extents.
pub open spec fn behind_body(last_comment_line: Seq<char>, rest: Seq<Seq<u8>>) -> Seq<Seq<u8>> {
    if last_comment_line != VMDK_DESCRIPTOR_EXTENTS@ {
        rest
    } else {
        behind_body_sections(rest)
    }
}

/// What a text says as a descriptor that was found in `base_path`.
pub open spec fn descriptor_of(base_path: Seq<char>, text: Seq<Seq<u8>>) -> Result<
    DescriptorText,
    DescriptorError,
> {
    match header_of(text) {
        Err(e) => Err(e),
        Ok((header, last_comment_line, rest)) => match body_of(last_comment_line, rest) {
            Err(e) => Err(e),
            Ok(body) => Ok(
                DescriptorText { base_path, header, extents: body.extents, ddb: body.ddb },
            ),
        },
    }
}

/// Whether a line begins a section.
fn begins_section(line: &str) -> (res: bool)
    ensures
        res == is_comment(line@),
{
    !line.is_empty() && line.get_char(0) == '#'
}

/// The number that `s` stands for, or 0.
fn parse_or_zero(s: &str, radix: u32, max: u64) -> (res: u64)
    requires
        2 <= radix <= 36,
    ensures
        res == number_or_zero(s@, radix as nat, max as nat),
        res <= max,
{
    match parse_number(s, radix, max) {
        Some(n) => n,
        None => 0,
    }
}

/// The disk type that the value of `createType` names.
fn parse_disk_type(value: &str) -> (res: VMDKDiskType)
    ensures
        res == disk_type(value@),
{
    if same_text(value, "monolithicFlat") {
        VMDKDiskType::MonolithicFlat
    } else if same_text(value, "twoGbMaxExtentFlat") {
        VMDKDiskType::TwoGbMaxExtentFlat
    } else {
        VMDKDiskType::CreateTypeUnsupported
    }
}

/// Reads the header section, and the line that begins the next one.
///
/// A text that does not begin with the header line is no descriptor but, for instance, disk data;
/// a descriptor that is embedded in such data is not supported, and no line behind the first is
/// read.
pub fn parse_header(reader: &mut LineReader<'_>) -> (res: Result<
    (VmdkDescriptorHeader, String),
    DescriptorError,
>)
    requires
        old(reader).wf(),
    ensures
        final(reader).wf(),
        match res {
            Ok((header, last_comment_line)) => header_of(old(reader)@) == Ok::<
                (HeaderSection, Seq<char>, Seq<Seq<u8>>),
                DescriptorError,
            >((header@, last_comment_line@, final(reader)@)),
            Err(e) => header_of(old(reader)@) == Err::<
                (HeaderSection, Seq<char>, Seq<Seq<u8>>),
                DescriptorError,
            >(e),
        },
        final(reader)@ == behind_header(old(reader)@),
        final(reader)@.len() <= old(reader)@.len(),
        final(reader).rest() == behind_lines(
            old(reader).rest(),
            (old(reader)@.len() - final(reader)@.len()) as nat,
        ),
        res == Err::<(VmdkDescriptorHeader, String), DescriptorError>(
            DescriptorError::MissingHeader,
        ) ==> final(reader)@ == if old(reader)@.len() == 0 {
            old(reader)@
        } else {
            old(reader)@.skip(1)
        },
{
    proof {
        reveal_with_fuel(behind_lines, 2);
    }
    let first = match reader.next_line() {
        Line::End => return Err(DescriptorError::MissingHeader),
        Line::Invalid => return Err(DescriptorError::InvalidUtf8),
        Line::Text(line) => line,
    };
    if !same_text(first.as_str(), VMDK_DESCRIPTOR_HEADER) {
        return Err(DescriptorError::MissingHeader);
    }
    let mut header = VmdkDescriptorHeader::default();
    loop
        invariant
            reader.wf(),
            header_of(old(reader)@) == header_section(header@, reader@),
            behind_header(old(reader)@) == behind_header_section(reader@),
            reader@.len() <= old(reader)@.len(),
            reader.rest() == behind_lines(
                old(reader).rest(),
                (old(reader)@.len() - reader@.len()) as nat,
            ),
        decreases reader@.len(),
    {
        let line = match reader.next_line() {
            Line::End => return Ok((header, String::new())),
            Line::Invalid => return Err(DescriptorError::InvalidUtf8),
            Line::Text(line) => line,
        };
        if begins_section(line.as_str()) {
            // Reached the end of the header section
            return Ok((header, line));
        }
        // Parse the key-value pairs in the header section
        if let Some((key, value)) = split_key_value(line.as_str()) {
            let key = key.as_str();
            if same_text(key, "version") {
                header.version = parse_or_zero(value.as_str(), 10, u32::MAX as u64) as u32;
            } else if same_text(key, "CID") {
                header.cid = parse_or_zero(value.as_str(), 16, u32::MAX as u64) as u32;
            } else if same_text(key, "parentCID") {
                header.parent_cid = parse_or_zero(value.as_str(), 16, u32::MAX as u64) as u32;
            } else if same_text(key, "createType") {
                header.create_type = parse_disk_type(value.as_str());
            } else if same_text(key, "parentFileNameHint") {
                header.parent_filename_hint = value;
            }
        }
    }
}

/// Reads the list of extents and the disk database, behind the line that begins them.
pub fn parse_extents_and_ddb(reader: &mut LineReader<'_>, last_comment_line: &str) -> (res: Result<
    (VmdkDescriptorExtents, VmdkDescriptorDdb),
    DescriptorError,
>)
    requires
        old(reader).wf(),
    ensures
        final(reader).wf(),
        match res {
            Ok((extents, ddb)) => body_of(last_comment_line@, old(reader)@) matches Ok(body)
                && body.extents == extents@ && body.ddb == ddb@ && final(reader)@.len() == 0,
            Err(e) => body_of(last_comment_line@, old(reader)@) == Err::<Body, DescriptorError>(e),
        },
        final(reader)@ == behind_body(last_comment_line@, old(reader)@),
        final(reader)@.len() <= old(reader)@.len(),
        final(reader).rest() == behind_lines(
            old(reader).rest(),
            (old(reader)@.len() - final(reader)@.len()) as nat,
        ),
        res == Err::<(VmdkDescriptorExtents, VmdkDescriptorDdb), DescriptorError>(
            DescriptorError::NotExtentsSection,
        ) ==> final(reader)@ == old(reader)@,
{
    let mut extents = VmdkDescriptorExtents::default();
    let mut ddb = VmdkDescriptorDdb::default();
    if !same_text(last_comment_line, VMDK_DESCRIPTOR_EXTENTS) {
        return Err(DescriptorError::NotExtentsSection);
    }
    // Parse both the extents and ddb sections
    let mut in_extents_section = true;
    loop
        invariant
            reader.wf(),
            body_of(last_comment_line@, old(reader)@) == body_sections(
                Body { in_extents_section, extents: extents@, ddb: ddb@ },
                reader@,
            ),
            behind_body(last_comment_line@, old(reader)@) == behind_body_sections(reader@),
            reader@.len() <= old(reader)@.len(),
            reader.rest() == behind_lines(
                old(reader).rest(),
                (old(reader)@.len() - reader@.len()) as nat,
            ),
        decreases reader@.len(),
    {
        let line = match reader.next_line() {
            Line::End => return Ok((extents, ddb)),
            Line::Invalid => return Err(DescriptorError::InvalidUtf8),
            Line::Text(line) => line,
        };
        if begins_section(line.as_str()) {
            if same_text(line.as_str(), VMDK_DESCRIPTOR_DDB) || same_text(
                line.as_str(),
                VMDK_DESCRIPTOR_DDB_2,
            ) {
                in_extents_section = false;
                continue;
            } else {
                return Err(DescriptorError::UnexpectedComment);
            }
        }
        if in_extents_section {
            // Parse the extent line
            if let Some(extent) = parse_extent_line(line.as_str()) {
                let ghost before = extents@;
                extents.extents.push(extent);
                assert(extents@ =~= before.push(extent@));
            }
        } else {
            // Parse the ddb entry line
            if let Some((key, value)) = split_key_value(line.as_str()) {
                let ghost before = ddb@;
                let ghost entry = (key@, value@);
                ddb.entries.insert(key, value);
                assert(ddb@ =~= before.insert(entry.0, entry.1));
            }
        }
    }
}

/// The extent that a line describes, if any.
fn parse_extent_line(line: &str) -> (res: Option<VmdkExtentHeader>)
    ensures
        match res {
            Some(e) => extent_line(line@) == Some(e@),
            None => extent_line(line@) is None,
        },
{
    let parts = split_words(line);
    assert(texts(parts@).len() == parts@.len());
    if parts.len() >= 4 {
        assert(texts(parts@)[0] == parts@[0]@);
        assert(texts(parts@)[1] == parts@[1]@);
        assert(texts(parts@)[2] == parts@[2]@);
        assert(texts(parts@)[3] == parts@[3]@);
        Some(
            VmdkExtentHeader {
                access: parts[0].clone(),
                size_in_sectors: parse_or_zero(parts[1].as_str(), 10, u64::MAX),
                extent_type: parts[2].clone(),
                filename: strip(parts[3].as_str(), Padding::Quotes).to_owned(),
            },
        )
    } else {
        None
    }
}

/// The text of a row of bytes, with replacement characters where it is not valid UTF-8.
pub uninterp spec fn lossy_text(bytes: Seq<u8>) -> Seq<char>;

/// `String::from_utf8_lossy`: the text of the bytes, which is the one that they encode where they
/// are valid UTF-8. Which replacement characters stand for bytes that are not is left unsaid.
#[verifier::external_body]
fn string_from_utf8_lossy(bytes: &[u8]) -> (res: String)
    ensures
        res@ == lossy_text(bytes@),
        valid_utf8(bytes@) ==> res@ == decode_utf8(bytes@),
{
    String::from_utf8_lossy(bytes).into_owned()
}

/// The number of bytes below which a file is no descriptor.
pub const MIN_DESCRIPTOR_LEN: u64 = 4;

/// What a file says as a descriptor that was found in `base_path`: nothing where the file is too
/// short, else what its lines say.
pub open spec fn file_descriptor(base_path: Seq<char>, file_len: u64, contents: Seq<u8>) -> Result<
    DescriptorText,
    DescriptorError,
> {
    if file_len < MIN_DESCRIPTOR_LEN {
        Err(DescriptorError::TooSmall)
    } else {
        descriptor_of(base_path, lines(contents))
    }
}

impl VmdkDescriptor {
    /// Reads the descriptor file at `path`, a file of `file_len` bytes of which `contents` were
    /// read.
    pub fn new(path: &[u8], file_len: u64, contents: &[u8]) -> (res: Result<Self, DescriptorError>)
        ensures
            match res {
                Ok(d) => parent_of(path@) matches Some(p) && {
                    &&& file_descriptor(lossy_text(p), file_len, contents@) == Ok::<
                        DescriptorText,
                        DescriptorError,
                    >(d@)
                    &&& d.base_path@ == lossy_text(p)
                    &&& valid_utf8(p) ==> d.base_path@ == decode_utf8(p)
                },
                Err(e) => match parent_of(path@) {
                    None => e == DescriptorError::NoParentDirectory,
                    Some(p) => file_descriptor(lossy_text(p), file_len, contents@) == Err::<
                        DescriptorText,
                        DescriptorError,
                    >(e),
                },
            },
    {
        match parent(path) {
            None => Err(DescriptorError::NoParentDirectory),
            Some(p) => Self::from_contents(string_from_utf8_lossy(p), file_len, contents),
        }
    }

    /// Reads a descriptor that was found in `base_path`, from a file of `file_len` bytes of which
    /// `contents` were read.
    pub fn from_contents(base_path: String, file_len: u64, contents: &[u8]) -> (res: Result<
        Self,
        DescriptorError,
    >)
        ensures
            match res {
                Ok(d) => file_descriptor(base_path@, file_len, contents@) == Ok::<
                    DescriptorText,
                    DescriptorError,
                >(d@),
                Err(e) => file_descriptor(base_path@, file_len, contents@) == Err::<
                    DescriptorText,
                    DescriptorError,
                >(e),
            },
    {
        if file_len < MIN_DESCRIPTOR_LEN {
            return Err(DescriptorError::TooSmall);
        }
        let mut reader = LineReader::new(contents);
        let (header, last_line) = match parse_header(&mut reader) {
            Ok(parsed) => parsed,
            Err(e) => return Err(e),
        };
        match parse_extents_and_ddb(&mut reader, last_line.as_str()) {
            Ok((extents_list, ddb)) => Ok(VmdkDescriptor { base_path, header, extents_list, ddb }),
            Err(e) => Err(e),
        }
    }
}

/// The descriptor is that of a flat image: its type is a flat one, and all its extents are flat.
pub open spec fn is_flat(d: DescriptorText) -> bool {
    &&& d.header.create_type == VMDKDiskType::MonolithicFlat || d.header.create_type
        == VMDKDiskType::TwoGbMaxExtentFlat
    &&& forall|i: int| 0 <= i < d.extents.len() ==> (#[trigger] d.extents[i]).extent_type == "FLAT"@
}

/// Whether a file is the descriptor of a flat image, which is the only kind that is supported: one
/// with a `createType` of `monolithicFlat` or `twoGbMaxExtentFlat` and none but `FLAT` extents.
pub fn is_flat_vmdk(file_len: u64, contents: &[u8]) -> (res: Result<bool, DescriptorError>)
    ensures
        match file_descriptor(Seq::empty(), file_len, contents@) {
            Ok(d) => res == Ok::<bool, DescriptorError>(is_flat(d)),
            Err(e) => res == Err::<bool, DescriptorError>(e),
        },
{
    let descriptor = match VmdkDescriptor::from_contents(String::new(), file_len, contents) {
        Ok(descriptor) => descriptor,
        Err(e) => return Err(e),
    };
    match descriptor.header.create_type {
        VMDKDiskType::MonolithicFlat | VMDKDiskType::TwoGbMaxExtentFlat => {},
        VMDKDiskType::CreateTypeUnsupported => return Ok(false),
    }
    let extents = &descriptor.extents_list.extents;
    let ghost listed = descriptor@.extents;
    let mut i: usize = 0;
    while i < extents.len()
        invariant
            file_descriptor(Seq::empty(), file_len, contents@) == Ok::<
                DescriptorText,
                DescriptorError,
            >(descriptor@),
            listed == descriptor@.extents,
            listed == extents@.map_values(|e: VmdkExtentHeader| e@),
            i <= extents@.len(),
            forall|j: int| 0 <= j < i ==> (#[trigger] listed[j]).extent_type == "FLAT"@,
        decreases extents@.len() - i,
    {
        assert(listed[i as int] == extents@[i as int]@);
        if !same_text(extents[i].extent_type.as_str(), "FLAT") {
            return Ok(false);
        }
        i += 1;
    }
    Ok(true)
}

/// Of two lines that set the same header field, the later one counts.
pub proof fn law_last_header_line_counts(
    h: HeaderSection,
    key: Seq<char>,
    earlier: Seq<char>,
    later: Seq<char>,
)
    ensures
        header_set(header_set(h, key, earlier), key, later) == header_set(h, key, later),
{
}

/// Lines that set different header fields may stand in either order.
pub proof fn law_header_fields_are_independent(
    h: HeaderSection,
    key: Seq<char>,
    value: Seq<char>,
    other_key: Seq<char>,
    other_value: Seq<char>,
)
    requires
        key != other_key,
    ensures
        header_set(header_set(h, key, value), other_key, other_value) == header_set(
            header_set(h, other_key, other_value),
            key,
            value,
        ),
{
}

/// The row is a line of text that reads `line`.
pub open spec fn reads(row: Seq<u8>, line: Seq<char>) -> bool {
    valid_utf8(row) && decode_utf8(row) == line
}

/// The rows are lines of text that begin no section.
pub open spec fn are_values(rows: Seq<Seq<u8>>) -> bool {
    forall|i: int|
        0 <= i < rows.len() ==> valid_utf8(#[trigger] rows[i]) && !is_comment(decode_utf8(rows[i]))
}

/// The header that the lines of a header section make of `h`.
pub open spec fn header_values(h: HeaderSection, rows: Seq<Seq<u8>>) -> HeaderSection
    decreases rows.len(),
{
    if rows.len() == 0 {
        h
    } else {
        header_values(header_line(h, decode_utf8(rows[0])), rows.skip(1))
    }
}

/// The extents that the lines of a list of extents describe, in their order.
pub open spec fn extent_values(rows: Seq<Seq<u8>>) -> Seq<ExtentLine>
    decreases rows.len(),
{
    if rows.len() == 0 {
        Seq::empty()
    } else {
        match extent_line(decode_utf8(rows[0])) {
            Some(e) => seq![e] + extent_values(rows.skip(1)),
            None => extent_values(rows.skip(1)),
        }
    }
}

/// The rows are lines of text that a disk database can hold: none begins another section. A line
/// that begins the disk database may stand among them again.
pub open spec fn are_ddb_rows(rows: Seq<Seq<u8>>) -> bool {
    forall|i: int|
        0 <= i < rows.len() ==> valid_utf8(#[trigger] rows[i]) && !is_unexpected(
            decode_utf8(rows[i]),
        )
}

/// The entries that the lines of a disk database add to `entries`. Of two for one key, the later
/// one counts; a line that begins the disk database adds none.
pub open spec fn ddb_values(entries: Map<Seq<char>, Seq<char>>, rows: Seq<Seq<u8>>) -> Map<
    Seq<char>,
    Seq<char>,
>
    decreases rows.len(),
{
    if rows.len() == 0 {
        entries
    } else {
        let line = decode_utf8(rows[0]);
        match key_value(line) {
            Some((key, value)) if !is_comment(line) => ddb_values(
                entries.insert(key, value),
                rows.skip(1),
            ),
            _ => ddb_values(entries, rows.skip(1)),
        }
    }
}

/// A header section ends at the first line that begins another.
proof fn lemma_header_values(
    h: HeaderSection,
    rows: Seq<Seq<u8>>,
    comment: Seq<u8>,
    rest: Seq<Seq<u8>>,
)
    requires
        are_values(rows),
        valid_utf8(comment),
        is_comment(decode_utf8(comment)),
    ensures
        header_section(h, rows + seq![comment] + rest) == Ok::<
            (HeaderSection, Seq<char>, Seq<Seq<u8>>),
            DescriptorError,
        >((header_values(h, rows), decode_utf8(comment), rest)),
    decreases rows.len(),
{
    let all = rows + seq![comment] + rest;
    if rows.len() == 0 {
        assert(all[0] == comment);
        assert(all.skip(1) =~= rest);
    } else {
        assert(all[0] == rows[0]);
        assert(all.skip(1) =~= rows.skip(1) + seq![comment] + rest);
        lemma_header_values(
            header_line(h, decode_utf8(rows[0])),
            rows.skip(1),
            comment,
            rest,
        );
    }
}

/// Lines of the list of extents add the extents that they describe.
proof fn lemma_extent_values(b: Body, rows: Seq<Seq<u8>>, rest: Seq<Seq<u8>>)
    requires
        are_values(rows),
        b.in_extents_section,
    ensures
        body_sections(b, rows + rest) == body_sections(
            Body { extents: b.extents + extent_values(rows), ..b },
            rest,
        ),
    decreases rows.len(),
{
    let all = rows + rest;
    if rows.len() == 0 {
        assert(all =~= rest);
        assert(b.extents + extent_values(rows) =~= b.extents);
    } else {
        let line = decode_utf8(rows[0]);
        let next = body_line(b, line);
        assert(all[0] == rows[0]);
        assert(all.skip(1) =~= rows.skip(1) + rest);
        lemma_extent_values(next, rows.skip(1), rest);
        assert(next.extents + extent_values(rows.skip(1)) =~= b.extents + extent_values(rows));
    }
}

/// Lines of the disk database add the entries that they hold.
proof fn lemma_ddb_values(b: Body, rows: Seq<Seq<u8>>)
    requires
        are_ddb_rows(rows),
        !b.in_extents_section,
    ensures
        body_sections(b, rows) == Ok::<Body, DescriptorError>(
            Body { ddb: ddb_values(b.ddb, rows), ..b },
        ),
    decreases rows.len(),
{
    if rows.len() > 0 {
        let line = decode_utf8(rows[0]);
        lemma_ddb_values(
            if is_comment(line) {
                b
            } else {
                body_line(b, line)
            },
            rows.skip(1),
        );
    }
}

/// A descriptor says what its sections say: behind the header line the header's values, behind the
/// extents line one extent for each line that describes one, and behind either of the lines that
/// begin the disk database its entries. It may lack the disk database, and may begin it more than
/// once.
pub proof fn law_descriptor_says_what_its_sections_say(
    base_path: Seq<char>,
    header_row: Seq<u8>,
    header_rows: Seq<Seq<u8>>,
    extents_row: Seq<u8>,
    extent_rows: Seq<Seq<u8>>,
    ddb_rows: Seq<Seq<u8>>,
)
    requires
        reads(header_row, VMDK_DESCRIPTOR_HEADER@),
        reads(extents_row, VMDK_DESCRIPTOR_EXTENTS@),
        are_values(header_rows),
        are_values(extent_rows),
        are_ddb_rows(ddb_rows),
        ddb_rows.len() > 0 ==> reads(ddb_rows[0], VMDK_DESCRIPTOR_DDB@) || reads(
            ddb_rows[0],
            VMDK_DESCRIPTOR_DDB_2@,
        ),
    ensures
        descriptor_of(
            base_path,
            seq![header_row] + (header_rows + seq![extents_row] + (extent_rows + ddb_rows)),
        ) == Ok::<DescriptorText, DescriptorError>(
            DescriptorText {
                base_path,
                header: header_values(empty_header(), header_rows),
                extents: extent_values(extent_rows),
                ddb: ddb_values(Map::empty(), ddb_rows),
            },
        ),
{
    reveal_strlit("# Extent description");
    reveal_strlit("# The Disk Data Base");
    reveal_strlit("#DDB");
    let body = extent_rows + ddb_rows;
    let behind = header_rows + seq![extents_row] + body;
    let text = seq![header_row] + behind;
    assert(text[0] == header_row);
    assert(text.skip(1) =~= behind);
    lemma_header_values(empty_header(), header_rows, extents_row, body);
    lemma_extent_values(empty_body(), extent_rows, ddb_rows);
    let b = Body { extents: empty_body().extents + extent_values(extent_rows), ..empty_body() };
    assert(b.extents =~= extent_values(extent_rows));
    if ddb_rows.len() > 0 {
        lemma_ddb_values(Body { in_extents_section: false, ..b }, ddb_rows.skip(1));
    }
}

/// Whether the lines of a descriptor end with a newline alone or with a carriage return before it
/// makes no difference.
pub proof fn law_line_ends_make_no_difference(base_path: Seq<char>, rows: Seq<Seq<u8>>)
    requires
        forall|i: int| 0 <= i < rows.len() ==> is_row(#[trigger] rows[i]),
    ensures
        descriptor_of(base_path, lines(as_text(rows, true))) == descriptor_of(
            base_path,
            lines(as_text(rows, false)),
        ),
{
    law_lines_of_text(rows, true);
    law_lines_of_text(rows, false);
}

/// A path without a parent is a fault of the input, and it alone; every other error is one of the
/// data.
pub proof fn law_descriptor_error_classes(e: DescriptorError)
    ensures
        e.spec_kind() == VmdkErrorKind::InvalidInput <==> e == DescriptorError::NoParentDirectory,
        e.spec_kind() == VmdkErrorKind::InvalidData <==> e != DescriptorError::NoParentDirectory,
{
}

/// A line `key = value` of the header sets the one field that its key names, to what the value
/// stands for, and leaves the others alone: the version in decimal digits, the two identifiers in
/// hexadecimal ones, each 0 where the value is no number of 32 bits, the type of the disk and the
/// hint. Any other key, and a line that is none such, changes nothing.
pub proof fn law_header_line_sets_its_field(h: HeaderSection, key: Seq<char>, value: Seq<char>)
    requires
        !key.contains('='),
        !value.contains('='),
    ensures
        ({
            let r = header_line(h, key + seq!['='] + value);
            let k = stripped(key, Padding::WhiteSpace);
            let v = stripped(value, Padding::WhiteSpace);
            let dec = number(v, 10, 0xffff_ffff);
            let hex = number(v, 16, 0xffff_ffff);
            &&& k == "version"@ ==> r == HeaderSection { version: r.version, ..h } && r.version
                == if dec is Some {
                dec->0
            } else {
                0
            }
            &&& k == "CID"@ ==> r == HeaderSection { cid: r.cid, ..h } && r.cid == if hex is Some {
                hex->0
            } else {
                0
            }
            &&& k == "parentCID"@ ==> r == HeaderSection { parent_cid: r.parent_cid, ..h }
                && r.parent_cid == if hex is Some {
                hex->0
            } else {
                0
            }
            &&& k == "createType"@ ==> {
                &&& r == HeaderSection { create_type: r.create_type, ..h }
                &&& r.create_type == VMDKDiskType::MonolithicFlat <==> v == "monolithicFlat"@
                &&& r.create_type == VMDKDiskType::TwoGbMaxExtentFlat <==> v
                    == "twoGbMaxExtentFlat"@
            }
            &&& k == "parentFileNameHint"@ ==> r == HeaderSection { parent_filename_hint: v, ..h }
            &&& k != "version"@ && k != "CID"@ && k != "parentCID"@ && k != "createType"@ && k
                != "parentFileNameHint"@ ==> r == h
        }),
        forall|line: Seq<char>|
            key_value(line) is None ==> #[trigger] header_line(h, line) == h,
{
    law_key_and_value(key, value);
    reveal_strlit("version");
    reveal_strlit("CID");
    reveal_strlit("parentCID");
    reveal_strlit("createType");
    reveal_strlit("parentFileNameHint");
    reveal_strlit("monolithicFlat");
    reveal_strlit("twoGbMaxExtentFlat");
    let k = stripped(key, Padding::WhiteSpace);
    let v = stripped(value, Padding::WhiteSpace);
    assert("version"@.len() == 7 && "CID"@.len() == 3 && "parentCID"@.len() == 9
        && "createType"@.len() == 10 && "parentFileNameHint"@.len() == 18);
    assert("monolithicFlat"@.len() == 14 && "twoGbMaxExtentFlat"@.len() == 18);
}

/// The version that a header line gives in decimal digits is the version that is read.
pub proof fn law_version_reads_back(h: HeaderSection, n: u32)
    ensures
        header_set(h, "version"@, decimal(n as nat)).version == n,
{
    law_decimal_reads_back(n as nat, u32::MAX as nat);
}

/// A header section is read line by line: a line that begins a section ends it, one that is not
/// valid UTF-8 is an error, and any other counts before those behind it.
pub proof fn law_header_goes_line_by_line(h: HeaderSection, row: Seq<u8>, rest: Seq<Seq<u8>>)
    ensures
        header_section(h, Seq::empty()) == Ok::<
            (HeaderSection, Seq<char>, Seq<Seq<u8>>),
            DescriptorError,
        >((h, Seq::empty(), Seq::empty())),
        !valid_utf8(row) ==> header_section(h, seq![row] + rest) == Err::<
            (HeaderSection, Seq<char>, Seq<Seq<u8>>),
            DescriptorError,
        >(DescriptorError::InvalidUtf8),
        valid_utf8(row) && decode_utf8(row).len() > 0 && decode_utf8(row)[0] == '#'
            ==> header_section(h, seq![row] + rest) == Ok::<
            (HeaderSection, Seq<char>, Seq<Seq<u8>>),
            DescriptorError,
        >((h, decode_utf8(row), rest)),
        valid_utf8(row) && (decode_utf8(row).len() == 0 || decode_utf8(row)[0] != '#')
            ==> header_section(h, seq![row] + rest) == header_section(
            header_line(h, decode_utf8(row)),
            rest,
        ),
{
    let all = seq![row] + rest;
    assert(all[0] == row);
    assert(all.skip(1) =~= rest);
}

/// A text is read as a descriptor only behind the header line, and begins without any value: where
/// the first line is another, or there is none, the header is missing, whatever follows.
pub proof fn law_header_line_comes_first(row: Seq<u8>, rest: Seq<Seq<u8>>)
    ensures
        header_of(Seq::empty()) == Err::<
            (HeaderSection, Seq<char>, Seq<Seq<u8>>),
            DescriptorError,
        >(DescriptorError::MissingHeader),
        !valid_utf8(row) ==> header_of(seq![row] + rest) == Err::<
            (HeaderSection, Seq<char>, Seq<Seq<u8>>),
            DescriptorError,
        >(DescriptorError::InvalidUtf8),
        valid_utf8(row) && decode_utf8(row) != "# Disk DescriptorFile"@ ==> header_of(
            seq![row] + rest,
        ) == Err::<(HeaderSection, Seq<char>, Seq<Seq<u8>>), DescriptorError>(
            DescriptorError::MissingHeader,
        ),
        valid_utf8(row) && decode_utf8(row) == "# Disk DescriptorFile"@ ==> header_of(
            seq![row] + rest,
        ) == header_section(
            HeaderSection {
                version: 0,
                cid: 0,
                parent_cid: 0,
                create_type: VMDKDiskType::CreateTypeUnsupported,
                parent_filename_hint: Seq::empty(),
            },
            rest,
        ),
{
    let all = seq![row] + rest;
    assert(all[0] == row);
    assert(all.skip(1) =~= rest);
}

/// A line describes an extent if and only if it has at least four words, whatever they are: the
/// access, the size, 0 where it is no number of 64 bits, the type, and the filename without the
/// quotes at its ends.
pub proof fn law_extent_line_has_four_words(line: Seq<char>)
    ensures
        words(line).len() < 4 ==> extent_line(line) is None,
        words(line).len() >= 4 ==> (extent_line(line) matches Some(e) && {
            let size = number(words(line)[1], 10, 0xffff_ffff_ffff_ffff);
            &&& e.access == words(line)[0]
            &&& e.size_in_sectors == if size is Some {
                size->0
            } else {
                0
            }
            &&& e.extent_type == words(line)[2]
            &&& e.filename == stripped(words(line)[3], Padding::Quotes)
        }),
{
}

/// Four words or more, joined by blanks, with decimal digits as the second and a quoted name as the
/// fourth, describe the extent with that access, size, type and name, whatever follows.
pub proof fn law_joined_words_describe_an_extent(
    access: Seq<char>,
    size: u64,
    extent_type: Seq<char>,
    name: Seq<char>,
    more: Seq<Seq<char>>,
)
    requires
        is_word(access),
        is_word(extent_type),
        is_word(decimal(size as nat)),
        is_word(seq!['"'] + name + seq!['"']),
        name.len() > 0 ==> name[0] != '"' && name.last() != '"',
        forall|i: int| 0 <= i < more.len() ==> is_word(#[trigger] more[i]),
    ensures
        extent_line(
            joined(
                seq![access, decimal(size as nat), extent_type, seq!['"'] + name + seq!['"']] + more,
            ),
        ) == Some(ExtentLine { access, size_in_sectors: size, extent_type, filename: name }),
{
    let quoted = seq!['"'] + name + seq!['"'];
    let four = seq![access, decimal(size as nat), extent_type, quoted];
    let row = four + more;
    assert forall|i: int| 0 <= i < row.len() implies is_word(#[trigger] row[i]) by {
        if i >= 4 {
            assert(is_word(more[i - 4]));
        } else {
            assert(row[i] == four[i]);
        }
    }
    law_joined_words_split(row);
    assert(row[0] == access && row[1] == decimal(size as nat) && row[2] == extent_type && row[3]
        == quoted);
    law_decimal_reads_back(size as nat, u64::MAX as nat);
    law_stripping_leaves_the_core(seq!['"'], name, seq!['"'], Padding::Quotes);
}

/// The sections behind the header are read line by line. In the list of extents a line adds the
/// extent that it describes, if any, behind the others; in the disk database one that has a key and
/// a value sets that key. Either of the lines that begin the disk database ends the list of extents;
/// any other line that begins a section, and one that is not valid UTF-8, is an error.
pub proof fn law_body_goes_line_by_line(b: Body, row: Seq<u8>, rest: Seq<Seq<u8>>)
    ensures
        body_sections(b, Seq::empty()) == Ok::<Body, DescriptorError>(b),
        !valid_utf8(row) ==> body_sections(b, seq![row] + rest) == Err::<Body, DescriptorError>(
            DescriptorError::InvalidUtf8,
        ),
        valid_utf8(row) ==> {
            let line = decode_utf8(row);
            let all = seq![row] + rest;
            let begins = line.len() > 0 && line[0] == '#';
            &&& line == "# The Disk Data Base"@ || line == "#DDB"@ ==> body_sections(b, all)
                == body_sections(Body { in_extents_section: false, ..b }, rest)
            &&& begins && line != "# The Disk Data Base"@ && line != "#DDB"@ ==> body_sections(
                b,
                all,
            ) == Err::<Body, DescriptorError>(DescriptorError::UnexpectedComment)
            &&& !begins && b.in_extents_section ==> body_sections(b, all) == match extent_line(
                line,
            ) {
                Some(e) => body_sections(
                    Body { in_extents_section: true, extents: b.extents.push(e), ddb: b.ddb },
                    rest,
                ),
                None => body_sections(b, rest),
            }
            &&& !begins && !b.in_extents_section ==> body_sections(b, all) == match key_value(
                line,
            ) {
                Some((k, v)) => body_sections(
                    Body {
                        in_extents_section: false,
                        extents: b.extents,
                        ddb: b.ddb.insert(k, v),
                    },
                    rest,
                ),
                None => body_sections(b, rest),
            }
        },
{
    let all = seq![row] + rest;
    assert(all[0] == row);
    assert(all.skip(1) =~= rest);
    reveal_strlit("# The Disk Data Base");
    reveal_strlit("#DDB");
}

/// The list of extents has to follow the header, and begins with nothing.
pub proof fn law_extents_come_first(last_comment_line: Seq<char>, rest: Seq<Seq<u8>>)
    ensures
        last_comment_line != "# Extent description"@ ==> body_of(last_comment_line, rest) == Err::<
            Body,
            DescriptorError,
        >(DescriptorError::NotExtentsSection),
        last_comment_line == "# Extent description"@ ==> body_of(last_comment_line, rest)
            == body_sections(
            Body { in_extents_section: true, extents: Seq::empty(), ddb: Map::empty() },
            rest,
        ),
{
}

/// Every line of the list of extents that has at least four words counts, whatever the words are: a
/// list of such lines yields as many extents, one for each line and in their order.
pub proof fn law_every_extent_line_counts(b: Body, rows: Seq<Seq<u8>>)
    requires
        b.in_extents_section,
        are_values(rows),
        forall|i: int| 0 <= i < rows.len() ==> words(decode_utf8(#[trigger] rows[i])).len() >= 4,
    ensures
        body_sections(b, rows) matches Ok(x) && {
            &&& x.extents.len() == b.extents.len() + rows.len()
            &&& x.extents.take(b.extents.len() as int) == b.extents
            &&& x.ddb == b.ddb
            &&& forall|i: int|
                0 <= i < rows.len() ==> {
                    let e = x.extents[b.extents.len() + i];
                    let w = words(decode_utf8(#[trigger] rows[i]));
                    &&& e.access == w[0]
                    &&& e.extent_type == w[2]
                    &&& e.filename == stripped(w[3], Padding::Quotes)
                    &&& number(w[1], 10, u64::MAX as nat) matches Some(n) ==> e.size_in_sectors == n
                }
        },
    decreases rows.len(),
{
    if rows.len() == 0 {
        assert(b.extents.take(b.extents.len() as int) =~= b.extents);
    } else {
        let line = decode_utf8(rows[0]);
        let e = extent_line(line)->0;
        let next = Body { extents: b.extents.push(e), ..b };
        let rest = rows.skip(1);
        assert(valid_utf8(rows[0]) && words(decode_utf8(rows[0])).len() >= 4);
        assert forall|i: int| 0 <= i < rest.len() implies valid_utf8(#[trigger] rest[i])
            && !is_comment(decode_utf8(rest[i])) && words(decode_utf8(rest[i])).len() >= 4 by {
            assert(rest[i] == rows[i + 1]);
        }
        law_every_extent_line_counts(next, rest);
        let x = body_sections(next, rest)->Ok_0;
        assert(x.extents.take(b.extents.len() as int) =~= b.extents) by {
            assert forall|i: int| 0 <= i < b.extents.len() implies x.extents[i]
                == b.extents[i] by {
                assert(x.extents.take(next.extents.len() as int)[i] == next.extents[i]);
            }
        }
        assert(x.extents[b.extents.len() as int] == e) by {
            assert(x.extents.take(next.extents.len() as int)[b.extents.len() as int] == e);
        }
        assert forall|i: int| 0 <= i < rows.len() implies ({
            let e = x.extents[b.extents.len() + i];
            let w = words(decode_utf8(#[trigger] rows[i]));
            &&& e.access == w[0]
            &&& e.extent_type == w[2]
            &&& e.filename == stripped(w[3], Padding::Quotes)
            &&& number(w[1], 10, u64::MAX as nat) matches Some(n) ==> e.size_in_sectors == n
        }) by {
            if i > 0 {
                assert(rest[i - 1] == rows[i]);
                assert(next.extents.len() + (i - 1) == b.extents.len() + i);
            }
        }
    }
}

/// The key and the value that a line of the disk database holds, if any.
pub open spec fn row_entry(row: Seq<u8>) -> Option<(Seq<char>, Seq<char>)> {
    if is_comment(decode_utf8(row)) {
        None
    } else {
        key_value(decode_utf8(row))
    }
}

/// Every line of the disk database that holds a key and a value counts: behind them, a key has the
/// value of the last line that holds it, and a key that none holds is as it was.
pub proof fn law_every_database_entry_counts(b: Body, rows: Seq<Seq<u8>>, key: Seq<char>, i: int)
    requires
        !b.in_extents_section,
        are_ddb_rows(rows),
        forall|j: int|
            0 <= j < rows.len() && j > i ==> (row_entry(#[trigger] rows[j]) matches Some(entry)
                ==> entry.0 != key),
    ensures
        body_sections(b, rows) matches Ok(x) && {
            &&& x.extents == b.extents
            &&& i < 0 ==> x.ddb.dom().contains(key) == b.ddb.dom().contains(key) && x.ddb[key]
                == b.ddb[key]
            &&& 0 <= i < rows.len() ==> (row_entry(rows[i]) matches Some(entry) ==> (entry.0 == key
                ==> x.ddb.dom().contains(key) && x.ddb[key] == entry.1))
        },
    decreases rows.len(),
{
    if rows.len() > 0 {
        let row = rows[0];
        let line = decode_utf8(row);
        let rest = rows.skip(1);
        assert(valid_utf8(row) && !is_unexpected(line));
        let next = if is_comment(line) {
            b
        } else {
            body_line(b, line)
        };
        assert(body_sections(b, rows) == body_sections(next, rest));
        assert forall|j: int| 0 <= j < rest.len() implies valid_utf8(#[trigger] rest[j])
            && !is_unexpected(decode_utf8(rest[j])) by {
            assert(rest[j] == rows[j + 1]);
        }
        assert forall|j: int| 0 <= j < rest.len() && j > i - 1 implies (row_entry(
            #[trigger] rest[j],
        ) matches Some(entry) ==> entry.0 != key) by {
            assert(rest[j] == rows[j + 1]);
        }
        law_every_database_entry_counts(next, rest, key, i - 1);
        if i < 0 {
            assert(row_entry(rows[0]) matches Some(entry) ==> entry.0 != key);
        }
        if 0 < i < rows.len() {
            assert(rest[i - 1] == rows[i]);
        }
    }
}

/// What a descriptor says does not depend on where it was found, but for the directory itself, which
/// it gives as it is; nor is it refused for that.
pub proof fn law_base_path_is_carried(base: Seq<char>, other: Seq<char>, text: Seq<Seq<u8>>)
    ensures
        descriptor_of(base, text) matches Ok(d) ==> {
            &&& d.base_path == base
            &&& descriptor_of(other, text) == Ok::<DescriptorText, DescriptorError>(
                DescriptorText { base_path: other, ..d },
            )
        },
        descriptor_of(base, text) is Err ==> descriptor_of(other, text) == descriptor_of(base, text),
{
}

/// A descriptor has what its header and the sections behind it say, and an error of either is its
/// error, that of the header first.
pub proof fn law_descriptor_is_header_and_body(base: Seq<char>, text: Seq<Seq<u8>>)
    ensures
        header_of(text) matches Err(e) ==> descriptor_of(base, text) == Err::<
            DescriptorText,
            DescriptorError,
        >(e),
        header_of(text) matches Ok(h) ==> match body_of(h.1, h.2) {
            Err(e) => descriptor_of(base, text) == Err::<DescriptorText, DescriptorError>(e),
            Ok(b) => descriptor_of(base, text) matches Ok(d) && d.header == h.0 && d.extents
                == b.extents && d.ddb == b.ddb,
        },
{
}

/// A file is too short if and only if it has fewer than four bytes; else its length makes no
/// difference.
pub proof fn law_file_length(base: Seq<char>, len: u64, contents: Seq<u8>)
    ensures
        file_descriptor(base, len, contents) == Err::<DescriptorText, DescriptorError>(
            DescriptorError::TooSmall,
        ) <==> len < 4,
        len >= 4 ==> file_descriptor(base, len, contents) == descriptor_of(base, lines(contents)),
{
    if len >= 4 {
        let text = lines(contents);
        lemma_not_too_small(base, text);
    }
}

/// No text is too short a file.
proof fn lemma_not_too_small(base: Seq<char>, text: Seq<Seq<u8>>)
    ensures
        descriptor_of(base, text) != Err::<DescriptorText, DescriptorError>(
            DescriptorError::TooSmall,
        ),
{
    if text.len() > 0 {
        lemma_header_error(empty_header(), text.skip(1));
    }
    if let Ok((_, _, rest)) = header_of(text) {
        lemma_body_error(empty_body(), rest);
    }
}

/// A header section fails for a line that is not valid UTF-8 alone.
proof fn lemma_header_error(h: HeaderSection, rest: Seq<Seq<u8>>)
    ensures
        header_section(h, rest) matches Err(e) ==> e == DescriptorError::InvalidUtf8,
    decreases rest.len(),
{
    if rest.len() > 0 {
        lemma_header_error(header_line(h, decode_utf8(rest[0])), rest.skip(1));
    }
}

/// The sections behind the header fail for a line that is not valid UTF-8 or begins another section
/// alone.
proof fn lemma_body_error(b: Body, rest: Seq<Seq<u8>>)
    ensures
        body_sections(b, rest) matches Err(e) ==> e == DescriptorError::InvalidUtf8 || e
            == DescriptorError::UnexpectedComment,
    decreases rest.len(),
{
    if rest.len() > 0 {
        lemma_body_error(body_line(b, decode_utf8(rest[0])), rest.skip(1));
        lemma_body_error(Body { in_extents_section: false, ..b }, rest.skip(1));
    }
}

/// One extent of another type, at any place of the list, makes an image not flat, and so does a type
/// of the disk that is not a flat one; nothing else does.
pub proof fn law_flat_means_every_extent(d: DescriptorText, i: int)
    ensures
        0 <= i < d.extents.len() && d.extents[i].extent_type != "FLAT"@ ==> !is_flat(d),
        d.header.create_type == VMDKDiskType::CreateTypeUnsupported ==> !is_flat(d),
        !is_flat(d) && d.header.create_type != VMDKDiskType::CreateTypeUnsupported ==> exists|k: int|
            0 <= k < d.extents.len() && (#[trigger] d.extents[k]).extent_type != "FLAT"@,
{
}

/// An image with two lists of extents, one behind the other, is flat if and only if it is with
/// either alone; the order of the two makes no difference. With a single extent it is flat if and
/// only if that one is `FLAT`, and with none if and only if the type of the disk is a flat one.
pub proof fn law_flat_list_by_list(d: DescriptorText, a: Seq<ExtentLine>, b: Seq<ExtentLine>)
    ensures
        is_flat(DescriptorText { extents: a + b, ..d }) <==> is_flat(
            DescriptorText { extents: a, ..d },
        ) && is_flat(DescriptorText { extents: b, ..d }),
        is_flat(DescriptorText { extents: a + b, ..d }) == is_flat(
            DescriptorText { extents: b + a, ..d },
        ),
        forall|e: ExtentLine|
            is_flat(DescriptorText { extents: #[trigger] seq![e], ..d }) <==> e.extent_type
                == "FLAT"@ && d.header.create_type != VMDKDiskType::CreateTypeUnsupported,
        is_flat(DescriptorText { extents: Seq::empty(), ..d }) <==> d.header.create_type
            != VMDKDiskType::CreateTypeUnsupported,
{
    lemma_flat_of_both(d, a, b);
    lemma_flat_of_both(d, b, a);
    assert forall|e: ExtentLine|
        is_flat(DescriptorText { extents: #[trigger] seq![e], ..d }) <==> e.extent_type == "FLAT"@
            && d.header.create_type != VMDKDiskType::CreateTypeUnsupported by {
        let one = DescriptorText { extents: seq![e], ..d };
        assert(one.extents[0] == e);
    }
}

/// Two lists make a flat image if and only if either does.
proof fn lemma_flat_of_both(d: DescriptorText, a: Seq<ExtentLine>, b: Seq<ExtentLine>)
    ensures
        is_flat(DescriptorText { extents: a + b, ..d }) <==> is_flat(
            DescriptorText { extents: a, ..d },
        ) && is_flat(DescriptorText { extents: b, ..d }),
{
    let both = DescriptorText { extents: a + b, ..d };
    let left = DescriptorText { extents: a, ..d };
    let right = DescriptorText { extents: b, ..d };
    if is_flat(both) {
        assert forall|i: int| 0 <= i < a.len() implies (#[trigger] left.extents[i]).extent_type
            == "FLAT"@ by {
            assert(both.extents[i] == a[i]);
        }
        assert forall|i: int| 0 <= i < b.len() implies (#[trigger] right.extents[i]).extent_type
            == "FLAT"@ by {
            assert(both.extents[a.len() + i] == b[i]);
        }
    }
    if is_flat(left) && is_flat(right) {
        assert forall|i: int| 0 <= i < both.extents.len() implies (
        #[trigger] both.extents[i]).extent_type == "FLAT"@ by {
            if i < a.len() {
                assert(left.extents[i] == both.extents[i]);
            } else {
                assert(right.extents[i - a.len()] == both.extents[i]);
            }
        }
    }
}

/// A descriptor whose list of extents holds a line of at least four words with a third word other
/// than `FLAT`, at any place, is not that of a flat image, whatever else it says.
pub proof fn law_any_other_extent_line_is_not_flat(
    base: Seq<char>,
    header_row: Seq<u8>,
    header_rows: Seq<Seq<u8>>,
    extents_row: Seq<u8>,
    extent_rows: Seq<Seq<u8>>,
    ddb_rows: Seq<Seq<u8>>,
    i: int,
)
    requires
        reads(header_row, VMDK_DESCRIPTOR_HEADER@),
        reads(extents_row, VMDK_DESCRIPTOR_EXTENTS@),
        are_values(header_rows),
        are_values(extent_rows),
        are_ddb_rows(ddb_rows),
        ddb_rows.len() > 0 ==> reads(ddb_rows[0], VMDK_DESCRIPTOR_DDB@) || reads(
            ddb_rows[0],
            VMDK_DESCRIPTOR_DDB_2@,
        ),
        0 <= i < extent_rows.len(),
        words(decode_utf8(extent_rows[i])).len() >= 4,
        words(decode_utf8(extent_rows[i]))[2] != "FLAT"@,
    ensures
        descriptor_of(
            base,
            seq![header_row] + (header_rows + seq![extents_row] + (extent_rows + ddb_rows)),
        ) matches Ok(d) && !is_flat(d),
{
    law_descriptor_says_what_its_sections_say(
        base,
        header_row,
        header_rows,
        extents_row,
        extent_rows,
        ddb_rows,
    );
    lemma_extent_values_hold(extent_rows, i);
    let e = extent_line(decode_utf8(extent_rows[i]))->0;
    let d = DescriptorText {
        base_path: base,
        header: header_values(empty_header(), header_rows),
        extents: extent_values(extent_rows),
        ddb: ddb_values(Map::empty(), ddb_rows),
    };
    let k = d.extents.index_of(e);
    assert(d.extents[k] == e);
    law_flat_means_every_extent(d, k);
}

/// The extent that a line describes is among those of its list.
proof fn lemma_extent_values_hold(rows: Seq<Seq<u8>>, i: int)
    requires
        0 <= i < rows.len(),
        extent_line(decode_utf8(rows[i])) is Some,
    ensures
        extent_values(rows).contains(extent_line(decode_utf8(rows[i]))->0),
    decreases rows.len(),
{
    let e = extent_line(decode_utf8(rows[i]))->0;
    let rest = extent_values(rows.skip(1));
    if i == 0 {
        assert(extent_values(rows)[0] == e);
    } else {
        assert(rows.skip(1)[i - 1] == rows[i]);
        lemma_extent_values_hold(rows.skip(1), i - 1);
        let k = rest.index_of(e);
        match extent_line(decode_utf8(rows[0])) {
            Some(first) => {
                assert(extent_values(rows) =~= seq![first] + rest);
                assert(extent_values(rows)[k + 1] == e);
            },
            None => {
                assert(extent_values(rows)[k] == e);
            },
        }
    }
}

/// Reading the header takes the first line alone where that is not the header line, and else every
/// line up to the one that begins the next section, or is not valid UTF-8, and that one.
pub proof fn law_header_takes_no_more_lines(row: Seq<u8>, rest: Seq<Seq<u8>>)
    ensures
        behind_header(Seq::empty()) == Seq::<Seq<u8>>::empty(),
        !valid_utf8(row) || decode_utf8(row) != "# Disk DescriptorFile"@ ==> behind_header(
            seq![row] + rest,
        ) == rest,
        valid_utf8(row) && decode_utf8(row) == "# Disk DescriptorFile"@ ==> behind_header(
            seq![row] + rest,
        ) == behind_header_section(rest),
        behind_header_section(Seq::empty()) == Seq::<Seq<u8>>::empty(),
        !valid_utf8(row) || decode_utf8(row).len() > 0 && decode_utf8(row)[0] == '#'
            ==> behind_header_section(seq![row] + rest) == rest,
        valid_utf8(row) && (decode_utf8(row).len() == 0 || decode_utf8(row)[0] != '#')
            ==> behind_header_section(seq![row] + rest) == behind_header_section(rest),
{
    let all = seq![row] + rest;
    assert(all[0] == row);
    assert(all.skip(1) =~= rest);
}

/// Reading the sections behind the header takes no line where the list of extents does not follow,
/// and else every line up to the one that begins a section other than the disk database, or is not
/// valid UTF-8, and that one.
pub proof fn law_body_takes_no_more_lines(last: Seq<char>, row: Seq<u8>, rest: Seq<Seq<u8>>)
    ensures
        last != "# Extent description"@ ==> behind_body(last, rest) == rest,
        last == "# Extent description"@ ==> behind_body(last, rest) == behind_body_sections(rest),
        behind_body_sections(Seq::empty()) == Seq::<Seq<u8>>::empty(),
        !valid_utf8(row) ==> behind_body_sections(seq![row] + rest) == rest,
        valid_utf8(row) ==> {
            let line = decode_utf8(row);
            behind_body_sections(seq![row] + rest) == if line.len() > 0 && line[0] == '#' && line
                != "# The Disk Data Base"@ && line != "#DDB"@ {
                rest
            } else {
                behind_body_sections(rest)
            }
        },
{
    let all = seq![row] + rest;
    assert(all[0] == row);
    assert(all.skip(1) =~= rest);
}

/// What a parsed descriptor says is what its fields hold, every one of them.
pub proof fn law_descriptors_say_what_they_hold(d: VmdkDescriptor, i: int, key: Seq<char>)
    ensures
        d@.base_path == d.base_path@,
        d@.header.version == d.header.version,
        d@.header.cid == d.header.cid,
        d@.header.parent_cid == d.header.parent_cid,
        d@.header.create_type == d.header.create_type,
        d@.header.parent_filename_hint == d.header.parent_filename_hint@,
        d@.extents.len() == d.extents_list.extents@.len(),
        0 <= i < d@.extents.len() ==> {
            let e = d.extents_list.extents@[i];
            &&& d@.extents[i].access == e.access@
            &&& d@.extents[i].size_in_sectors == e.size_in_sectors
            &&& d@.extents[i].extent_type == e.extent_type@
            &&& d@.extents[i].filename == e.filename@
        },
        d@.ddb.dom().contains(key) <==> d.ddb.entries@.dom().contains(key),
        d@.ddb.dom().contains(key) ==> d@.ddb[key] == d.ddb.entries@[key]@,
{
}

} // verus!
