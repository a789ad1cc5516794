use vmdk::descriptor::{
    is_flat_vmdk, parse_extents_and_ddb, parse_header, DescriptorError, VMDKDiskType,
    VmdkDescriptor, VmdkDescriptorDdb, VmdkDescriptorExtents, VmdkDescriptorHeader,
    VmdkExtentHeader,
};
use vmdk::error::VmdkErrorKind;
use vmdk::lines::{Line, LineReader};

const TEXT: &str = "# Disk DescriptorFile
version=1
CID=fffffffe
parentCID = ffffffff
createType=twoGbMaxExtentFlat
parentFileNameHint = base.vmdk
# Extent description
RW 4192256 FLAT \"disk-f001.vmdk\" 0

RW 2097152 FLAT \"disk-f002.vmdk\" 0
RDONLY 12
# The Disk Data Base
ddb.adapterType = \"lsilogic\"
ddb.geometry.heads=255
nonsense
ddb.geometry.heads=16
a=b=c
";

fn read(text: &str) -> Result<VmdkDescriptor, DescriptorError> {
    VmdkDescriptor::new(b"/images/disk.vmdk", text.len() as u64, text.as_bytes())
}

fn flat(text: &str) -> Result<bool, DescriptorError> {
    is_flat_vmdk(text.len() as u64, text.as_bytes())
}

#[test]
fn reads_every_section() {
    let d = read(TEXT).ok().unwrap();
    assert_eq!(d.base_path, "/images");
    assert_eq!(d.header.version, 1);
    assert_eq!(d.header.cid, 0xffff_fffe);
    assert_eq!(d.header.parent_cid, 0xffff_ffff);
    assert_eq!(d.header.create_type, VMDKDiskType::TwoGbMaxExtentFlat);
    assert_eq!(d.header.parent_filename_hint, "base.vmdk");
    let extents = &d.extents_list.extents;
    assert_eq!(extents.len(), 2);
    assert_eq!(extents[0].access, "RW");
    assert_eq!(extents[0].size_in_sectors, 4192256);
    assert_eq!(extents[0].extent_type, "FLAT");
    assert_eq!(extents[0].filename, "disk-f001.vmdk");
    assert_eq!(extents[1].size_in_sectors, 2097152);
    assert_eq!(extents[1].filename, "disk-f002.vmdk");
    assert_eq!(d.ddb.entries.len(), 2);
    assert_eq!(d.ddb.entries.get("ddb.adapterType"), Some(&"\"lsilogic\"".to_string()));
    assert_eq!(d.ddb.entries.get("ddb.geometry.heads"), Some(&"16".to_string()));
    assert_eq!(flat(TEXT), Ok(true));
}

#[test]
fn carriage_returns_make_no_difference() {
    let dos = TEXT.replace('\n', "\r\n");
    let d = read(&dos).ok().unwrap();
    assert_eq!(d.header.create_type, VMDKDiskType::TwoGbMaxExtentFlat);
    assert_eq!(d.header.parent_filename_hint, "base.vmdk");
    assert_eq!(d.extents_list.extents.len(), 2);
    assert_eq!(d.ddb.entries.len(), 2);
    assert_eq!(flat(&dos), Ok(true));
}

#[test]
fn base_path_is_the_parent_directory() {
    let new = |path: &[u8]| VmdkDescriptor::new(path, 4, TEXT.as_bytes());
    assert_eq!(new(b"disk.vmdk").ok().unwrap().base_path, "");
    assert_eq!(new(b"/disk.vmdk").ok().unwrap().base_path, "/");
    assert_eq!(new(b"a//b/disk.vmdk").ok().unwrap().base_path, "a//b");
    assert_eq!(new(b"a\xff/disk.vmdk").ok().unwrap().base_path, "a\u{fffd}");
    assert_eq!(new(b"/\xc3\xa9/disk.vmdk").ok().unwrap().base_path, "/\u{e9}");
    assert_eq!(new(b"/").err(), Some(DescriptorError::NoParentDirectory));
    assert_eq!(new(b"").err(), Some(DescriptorError::NoParentDirectory));
    // The path is looked at before the file.
    assert_eq!(
        VmdkDescriptor::new(b"", 0, b"").err(),
        Some(DescriptorError::NoParentDirectory)
    );
}

#[test]
fn a_file_has_to_be_long_enough() {
    let text = TEXT.as_bytes();
    let d = |len: u64| VmdkDescriptor::from_contents("base".to_string(), len, text);
    assert_eq!(d(0).err(), Some(DescriptorError::TooSmall));
    assert_eq!(d(3).err(), Some(DescriptorError::TooSmall));
    assert_eq!(d(4).ok().unwrap().base_path, "base");
    assert_eq!(is_flat_vmdk(3, text), Err(DescriptorError::TooSmall));
}

#[test]
fn the_header_line_has_to_come_first() {
    assert_eq!(read("version=1\n").err(), Some(DescriptorError::MissingHeader));
    assert_eq!(read("\n# Disk DescriptorFile\n").err(), Some(DescriptorError::MissingHeader));
    assert_eq!(read("# Disk DescriptorFile \n").err(), Some(DescriptorError::MissingHeader));
    assert_eq!(VmdkDescriptor::new(b"a", 4, b"").err(), Some(DescriptorError::MissingHeader));
}

#[test]
fn the_extents_have_to_come_next() {
    let error = Some(DescriptorError::NotExtentsSection);
    assert_eq!(read("# Disk DescriptorFile").err(), error);
    assert_eq!(read("# Disk DescriptorFile\nversion=1\n").err(), error);
    assert_eq!(read("# Disk DescriptorFile\n#DDB\n# Extent description\n").err(), error);
}

#[test]
fn only_the_database_may_follow() {
    let head = "# Disk DescriptorFile\n# Extent description\n";
    assert_eq!(
        read(&format!("{head}# something else\n")).err(),
        Some(DescriptorError::UnexpectedComment)
    );
    assert_eq!(
        read(&format!("{head}# The Disk Data Base\n#\n")).err(),
        Some(DescriptorError::UnexpectedComment)
    );
    let d = read(&format!("{head}#DDB\nk=v\n# The Disk Data Base\nl=w\n#DDB")).ok().unwrap();
    assert_eq!(d.ddb.entries.get("k"), Some(&"v".to_string()));
    assert_eq!(d.ddb.entries.get("l"), Some(&"w".to_string()));
}

#[test]
fn invalid_utf8_is_met_where_it_stands() {
    let new = |text: &[u8]| VmdkDescriptor::new(b"a", 100, text).err();
    assert_eq!(new(b"\xff\n"), Some(DescriptorError::InvalidUtf8));
    assert_eq!(new(b"# Disk DescriptorFile\n\xff\n"), Some(DescriptorError::InvalidUtf8));
    assert_eq!(
        new(b"# Disk DescriptorFile\n# Extent description\n\xff\n"),
        Some(DescriptorError::InvalidUtf8)
    );
    // What comes before it counts first.
    assert_eq!(new(b"no header\n\xff\n"), Some(DescriptorError::MissingHeader));
    assert_eq!(
        new(b"# Disk DescriptorFile\n# other\n\xff\n"),
        Some(DescriptorError::NotExtentsSection)
    );
}

#[test]
fn header_values_fall_back_to_defaults() {
    let text = b"# Disk DescriptorFile\nversion=x\nCID=12345678g\nparentCID=100000000\ncreateType=\"monolithicFlat\"\nunknown=1\n# c\nrest\n";
    let mut reader = LineReader::new(text);
    let (h, last) = parse_header(&mut reader).ok().unwrap();
    assert_eq!((h.version, h.cid, h.parent_cid), (0, 0, 0));
    assert_eq!(h.create_type, VMDKDiskType::CreateTypeUnsupported);
    assert_eq!(h.parent_filename_hint, "");
    assert_eq!(last, "# c");
}

#[test]
fn the_last_header_line_counts() {
    let text = b"# Disk DescriptorFile\nversion=1\nCID=aB\nversion=+7\ncreateType=monolithicFlat\n";
    let mut reader = LineReader::new(text);
    let (h, last) = parse_header(&mut reader).ok().unwrap();
    assert_eq!(h.version, 7);
    assert_eq!(h.cid, 0xab);
    assert_eq!(h.create_type, VMDKDiskType::MonolithicFlat);
    assert_eq!(last, "");
}

#[test]
fn header_and_body_share_a_reader() {
    let mut reader = LineReader::new(TEXT.as_bytes());
    let (_, last) = parse_header(&mut reader).ok().unwrap();
    assert_eq!(last, "# Extent description");
    let (extents, ddb) = parse_extents_and_ddb(&mut reader, &last).ok().unwrap();
    assert_eq!(extents.extents.len(), 2);
    assert_eq!(ddb.entries.len(), 2);
}

#[test]
fn the_body_wants_the_extents_line() {
    let mut reader = LineReader::new(b"RW 1 FLAT \"a\"\n");
    assert_eq!(
        parse_extents_and_ddb(&mut reader, "#DDB").err(),
        Some(DescriptorError::NotExtentsSection)
    );
}

#[test]
fn an_extent_line_has_four_words() {
    let mut reader = LineReader::new(b"RW 1 FLAT\n\tNOACCESS many  ZERO \"\"x\" y\" z\n");
    let (extents, _) = parse_extents_and_ddb(&mut reader, "# Extent description").ok().unwrap();
    assert_eq!(extents.extents.len(), 1);
    let e = &extents.extents[0];
    assert_eq!(e.access, "NOACCESS");
    assert_eq!(e.size_in_sectors, 0);
    assert_eq!(e.extent_type, "ZERO");
    assert_eq!(e.filename, "x");
}

#[test]
fn only_flat_images_are_flat() {
    let image = |create: &str, extents: &str| {
        format!("# Disk DescriptorFile\ncreateType={create}\n# Extent description\n{extents}#DDB\n")
    };
    let one = "RW 1 FLAT \"a\"\n";
    assert_eq!(flat(&image("monolithicFlat", one)), Ok(true));
    assert_eq!(flat(&image("twoGbMaxExtentFlat", one)), Ok(true));
    assert_eq!(flat(&image("monolithicFlat", "")), Ok(true));
    assert_eq!(flat(&image("monolithicSparse", one)), Ok(false));
    assert_eq!(flat(&image("MonolithicFlat", one)), Ok(false));
    assert_eq!(flat(&image("twoGbMaxExtentFlat", "RW 1 FLAT a\nRW 1 SPARSE b\n")), Ok(false));
    assert_eq!(flat("not a descriptor"), Err(DescriptorError::MissingHeader));
}

#[test]
fn errors_have_a_kind_and_a_message() {
    let errors = [
        (DescriptorError::NoParentDirectory, "Cannot retrieve parent directory of the file"),
        (
            DescriptorError::TooSmall,
            "Invalid VMDK descriptor file: file is empty or too small",
        ),
        (DescriptorError::InvalidUtf8, "stream did not contain valid UTF-8"),
        (DescriptorError::MissingHeader, "Not a VMDK descriptor file: missing header"),
        (
            DescriptorError::NotExtentsSection,
            "Received NON Extents section comment line, expected Extents section comment line",
        ),
        (
            DescriptorError::UnexpectedComment,
            "Received unexpected comment line, expected DDB section comment line",
        ),
    ];
    for (error, message) in errors {
        assert_eq!(error.message(), message);
        let kind = if error == DescriptorError::NoParentDirectory {
            VmdkErrorKind::InvalidInput
        } else {
            VmdkErrorKind::InvalidData
        };
        assert_eq!(error.kind(), kind);
    }
}

#[test]
fn defaults_are_empty() {
    let d = VmdkDescriptor::default();
    assert_eq!(d.base_path, "");
    assert_eq!(VMDKDiskType::default(), VMDKDiskType::CreateTypeUnsupported);
    assert_eq!(VmdkDescriptorHeader::default().create_type, VMDKDiskType::CreateTypeUnsupported);
    assert!(VmdkDescriptorExtents::default().extents.is_empty());
    assert_eq!(VmdkDescriptorDdb::default().entries.len(), 0);
    assert_eq!(VmdkExtentHeader::default().size_in_sectors, 0);
}

#[test]
fn header_lines_may_stand_in_either_order() {
    let lines = ["version=3\n", "CID=1f\n", "createType=monolithicFlat\n"];
    let one = format!("# Disk DescriptorFile\n{}{}{}", lines[0], lines[1], lines[2]);
    let other = format!("# Disk DescriptorFile\n{}{}{}", lines[2], lines[0], lines[1]);
    for text in [one, other] {
        let (h, _) = parse_header(&mut LineReader::new(text.as_bytes())).ok().unwrap();
        assert_eq!((h.version, h.cid), (3, 0x1f));
        assert_eq!(h.create_type, VMDKDiskType::MonolithicFlat);
    }
}

fn left(mut reader: LineReader) -> Vec<String> {
    let mut lines = vec![];
    loop {
        match reader.next_line() {
            Line::Text(line) => lines.push(line),
            Line::Invalid => lines.push("invalid".to_string()),
            Line::End => return lines,
        }
    }
}

#[test]
fn a_refused_header_leaves_the_lines_behind_it() {
    let cases: [(&[u8], DescriptorError, &[&str]); 4] = [
        (b"", DescriptorError::MissingHeader, &[]),
        (b"disk data\na\nb\n", DescriptorError::MissingHeader, &["a", "b"]),
        (b"\xff\na\n", DescriptorError::InvalidUtf8, &["a"]),
        (b"# Disk DescriptorFile\na\n\xff\nb\n", DescriptorError::InvalidUtf8, &["b"]),
    ];
    for (text, error, lines) in cases {
        let mut reader = LineReader::new(text);
        assert_eq!(parse_header(&mut reader).err(), Some(error));
        assert_eq!(left(reader), lines);
    }
}

#[test]
fn a_refused_body_leaves_the_lines_behind_it() {
    let extents = "# Extent description";
    let cases: [(&[u8], &str, DescriptorError, &[&str]); 5] = [
        (b"a\nb\n", "#DDB", DescriptorError::NotExtentsSection, &["a", "b"]),
        (b"a\n", "", DescriptorError::NotExtentsSection, &["a"]),
        (b"a\n", "# Extent description ", DescriptorError::NotExtentsSection, &["a"]),
        (
            b"RW 8 FLAT \"a.vmdk\"\n# Change Tracking File\n#DDB\n",
            extents,
            DescriptorError::UnexpectedComment,
            &["#DDB"],
        ),
        (b"#DDB\nk=v\n\xff\nl=w\n", extents, DescriptorError::InvalidUtf8, &["l=w"]),
    ];
    for (text, last, error, lines) in cases {
        let mut reader = LineReader::new(text);
        assert_eq!(parse_extents_and_ddb(&mut reader, last).err(), Some(error));
        assert_eq!(left(reader), lines);
    }
}

#[test]
fn the_database_may_be_missing_or_begin_twice() {
    let head = "# Disk DescriptorFile\n# Extent description\nRW 1 FLAT a\n";
    let d = read(head).ok().unwrap();
    assert_eq!(d.extents_list.extents.len(), 1);
    assert_eq!(d.ddb.entries.len(), 0);
    let d = read(&format!("{head}#DDB\nk=v\n# The Disk Data Base\nk=w\n#DDB\n")).ok().unwrap();
    assert_eq!(d.extents_list.extents.len(), 1);
    assert_eq!(d.ddb.entries.len(), 1);
    assert_eq!(d.ddb.entries.get("k"), Some(&"w".to_string()));
}
