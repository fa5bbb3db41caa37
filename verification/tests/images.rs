//! Images: their parts, their place in memory, and how modules depend on each
//! other.
use casa1::bytes::{read_u16, read_u32, read_u64, write_u32, write_u64};
use casa1::error::{AppError, ReasonCode};
use casa1::names::NameMap;
use casa1::order::{place, text_before};
use casa1::pe::activation::{activation_key, vc_runtime_dlls};
use casa1::pe::api_set::ApiSetResolver;
use casa1::pe::headers::{align_up, parse, version_resource_blob};
use casa1::pe::icons::{extract_icon_from_pe, find_resource_group_icons};
use casa1::pe::layout::{
    apply_relocations, hash_seed, map_image, map_over, room_needed, select_image_base,
};
use casa1::pe::lifecycle::plan_lifecycle;
use casa1::pe::manifest::parse_manifest_bytes;
use casa1::pe::modules::{normalize_module_name, parse_forwarder_string};
use casa1::pe::resolve::{lookup_export_symbol, resolve_export_symbol, ExportLookupFailure};
use casa1::pe::resources::{
    extract_resource_payload, find_resource_blob, find_resource_data_entry_by_key, ResourceName,
    RT_RCDATA,
};
use casa1::pe::rva::{read_c_string, rva_to_file_offset};
use casa1::pe::types::{
    AssemblyIdentity, ClrHeader, DataDirectory, ExportSymbol, ExportTarget, ImportSymbol,
    ManifestSource, MappedImage, ParsedPe, PeSection, RelocationBlock, RelocationEntry,
    RelocationType, VersionInfo,
};
use casa1::pe::version::format_version;
use casa1::text::{push_decimal, push_wide_decimal, to_lower, trim_text};
use casa1::utf16;

fn image() -> ParsedPe {
    ParsedPe {
        machine: 0x8664,
        number_of_sections: 0,
        characteristics: 0,
        optional_header_magic: 0x020b,
        subsystem: 3,
        dll_characteristics: 0,
        address_of_entry_point: 0x1000,
        image_base: 0x1_4000_0000,
        size_of_image: 0x2000,
        size_of_headers: 0x400,
        section_alignment: 0x1000,
        file_alignment: 0x200,
        data_directories: vec![],
        sections: vec![],
        debug_entries: vec![],
        load_config: None,
        imports: vec![],
        delay_imports: vec![],
        exports: vec![],
        relocations: vec![],
        tls_directory: None,
        version_info: VersionInfo::default(),
        embedded_manifest: None,
        external_manifest: None,
        is_dotnet: false,
        clr_header: None,
        bound_imports: vec![],
    }
}

fn no_directory() -> DataDirectory {
    DataDirectory {
        virtual_address: 0,
        size: 0,
    }
}

fn clr_header(flags: u32) -> ClrHeader {
    ClrHeader {
        major_runtime_version: 2,
        minor_runtime_version: 5,
        metadata: no_directory(),
        flags,
        entry_point_token: 0,
        resources: no_directory(),
        strong_name_signature: no_directory(),
        code_manager_table: no_directory(),
        vtable_fixups: no_directory(),
        export_address_table_jumps: no_directory(),
        managed_native_header: no_directory(),
    }
}

fn put16(bytes: &mut [u8], at: usize, value: u16) {
    bytes[at..at + 2].copy_from_slice(&value.to_le_bytes());
}

fn put32(bytes: &mut [u8], at: usize, value: u32) {
    bytes[at..at + 4].copy_from_slice(&value.to_le_bytes());
}

/// A file with headers and one section that has the given name and holds
/// nothing.
fn file_with_section(name: &[u8]) -> Vec<u8> {
    let mut file = vec![0u8; 0x400];
    file[0] = b'M';
    file[1] = b'Z';
    put32(&mut file, 0x3c, 0x80);
    file[0x80..0x82].copy_from_slice(b"PE");
    put16(&mut file, 0x84, 0x014c);
    put16(&mut file, 0x86, 1);
    put16(&mut file, 0x94, 0xe0);
    put16(&mut file, 0x96, 0x0102);
    let optional = 0x98;
    put16(&mut file, optional, 0x010b);
    put32(&mut file, optional + 16, 0x1000);
    put32(&mut file, optional + 28, 0x0040_0000);
    put32(&mut file, optional + 32, 0x1000);
    put32(&mut file, optional + 36, 0x200);
    put32(&mut file, optional + 56, 0x2000);
    put32(&mut file, optional + 60, 0x400);
    put32(&mut file, optional + 92, 16);
    let section = optional + 0xe0;
    file[section..section + name.len()].copy_from_slice(name);
    put32(&mut file, section + 8, 0x1000);
    put32(&mut file, section + 12, 0x1000);
    file
}

// ---------------------------------------------------------------------------
// Bytes and text
// ---------------------------------------------------------------------------

#[test]
fn words_are_read_back_as_they_were_written() {
    let mut bytes = vec![0u8; 12];
    write_u32(&mut bytes, 1, 0x8765_4321).unwrap();
    assert_eq!(read_u32(&bytes, 1, "word").unwrap(), 0x8765_4321);
    assert_eq!(read_u16(&bytes, 1, "half").unwrap(), 0x4321);
    write_u64(&mut bytes, 4, 0x0102_0304_0506_0708).unwrap();
    assert_eq!(read_u64(&bytes, 4, "long").unwrap(), 0x0102_0304_0506_0708);
    assert_eq!(bytes[4], 8);
    assert_eq!(
        read_u32(&bytes, 9, "word").unwrap_err().code,
        ReasonCode::RcPeParseInvalid
    );
    assert!(write_u64(&mut bytes, 5, 0).is_err());
}

#[test]
fn text_ends_with_a_zero() {
    assert_eq!(read_c_string(b"xh\xc3\xa9\0y", 1, "text").unwrap(), "h\u{e9}");
    for bytes in [&b"abc"[..], &b"\xff\xfe\0"[..]] {
        assert_eq!(
            read_c_string(bytes, 0, "text").unwrap_err().code,
            ReasonCode::RcPeParseInvalid
        );
    }
}

#[test]
fn text_comes_back_from_its_units() {
    for text in ["", "abc", "\u{e4}\u{20ac}", "a\u{1f600}b"] {
        let units = utf16::encode(text);
        assert_eq!(units, text.encode_utf16().collect::<Vec<u16>>());
        assert_eq!(utf16::decode(&units).unwrap(), text);
        assert_eq!(utf16::decode_lossy(&units), text);
    }
    assert!(utf16::decode(&[0x61, 0xd800]).is_none());
    assert_eq!(utf16::decode_lossy(&[0xd800, 0x61, 0xdc00]), "\u{fffd}a\u{fffd}");
}

#[test]
fn numbers_are_written_in_decimal() {
    let mut text = String::from("n");
    push_decimal(&mut text, 0);
    push_decimal(&mut text, u64::MAX);
    push_wide_decimal(&mut text, u128::MAX);
    assert_eq!(text, format!("n0{}{}", u64::MAX, u128::MAX));
    assert_eq!(to_lower("A\u{c4}z"), "a\u{c4}z");
    let spaced: Vec<char> = " \ta b\u{a0}".chars().collect();
    assert_eq!(trim_text(&spaced), vec!['a', ' ', 'b']);
}

#[test]
fn texts_are_kept_in_order() {
    let mut texts: Vec<String> = Vec::new();
    for text in ["b", "a", "ab", "b"] {
        place(&mut texts, text.to_string());
    }
    let mut sorted = texts.clone();
    sorted.sort();
    assert_eq!(texts, sorted);
    assert!(text_before("a", "ab") && !text_before("ab", "a") && !text_before("a", "a"));
}

#[test]
fn an_error_can_carry_a_hint() {
    let error = AppError::new(ReasonCode::RcIo, "broken").with_hint("mend it".to_string());
    assert_eq!(error.message, "broken");
    assert_eq!(error.hint.as_deref(), Some("mend it"));
}

// ---------------------------------------------------------------------------
// Headers
// ---------------------------------------------------------------------------

#[test]
fn the_name_of_a_section_may_be_malformed() {
    let parsed = parse(&file_with_section(b".\xffx")).unwrap();
    assert_eq!(parsed.sections[0].name, ".\u{fffd}x");
    let parsed = parse(&file_with_section(b".text\0zz")).unwrap();
    assert_eq!(parsed.sections[0].name, ".text");
}

#[test]
fn what_is_no_image_is_refused() {
    assert_eq!(
        parse(b"MZ").unwrap_err().code,
        ReasonCode::RcPeParseInvalid
    );
    let mut file = file_with_section(b".text");
    file[0x80] = b'N';
    assert_eq!(parse(&file).unwrap_err().code, ReasonCode::RcPeParseInvalid);
}

#[test]
fn sizes_are_rounded_up_to_the_alignment() {
    assert_eq!(align_up(0x1001, 0x1000).unwrap(), 0x2000);
    assert_eq!(align_up(0x1000, 0x1000).unwrap(), 0x1000);
    assert_eq!(align_up(0, 0x200).unwrap(), 0);
    assert_eq!(
        align_up(u32::MAX, 0x1000).unwrap_err().code,
        ReasonCode::RcPeParseInvalid
    );
}

#[test]
fn an_image_says_what_it_is() {
    let mut parsed = image();
    assert_eq!(parsed.pointer_bytes(), 8);
    assert!(!parsed.hot_patch() && !parsed.dynamic_base());
    assert!(!parsed.is_ijw() && !parsed.is_il_only());
    parsed.dll_characteristics = 0x60;
    parsed.optional_header_magic = 0x010b;
    assert!(parsed.hot_patch() && parsed.dynamic_base());
    assert_eq!(parsed.pointer_bytes(), 4);
    parsed.clr_header = Some(clr_header(0x10));
    assert!(parsed.is_ijw() && !parsed.is_il_only());
    parsed.clr_header = Some(clr_header(0x01));
    assert!(!parsed.is_ijw() && parsed.is_il_only());
    assert_eq!(parsed.directory(5), no_directory());
}

#[test]
fn a_version_has_four_numbers() {
    assert_eq!(format_version(0x0001_0002, 0x0003_ffff), "1.2.3.65535");
}

// ---------------------------------------------------------------------------
// Layout
// ---------------------------------------------------------------------------

fn relocatable() -> ParsedPe {
    let mut parsed = image();
    parsed.relocations = vec![RelocationBlock {
        page_rva: 0x1000,
        entries: vec![
            RelocationEntry {
                kind: RelocationType::Dir64,
                offset: 0,
            },
            RelocationEntry {
                kind: RelocationType::HighLow,
                offset: 0x10,
            },
            RelocationEntry {
                kind: RelocationType::Absolute,
                offset: 0x20,
            },
        ],
    }];
    parsed
}

#[test]
fn moving_an_image_there_and_back_changes_nothing() {
    let mut parsed = relocatable();
    let (home, away) = (parsed.image_base, 0x1234_5678_9000);
    let memory: Vec<u8> = (0..0x2000u32).map(|i| (i * 7) as u8).collect();
    let mut mapped = MappedImage {
        preferred_base: home,
        selected_base: away,
        memory: memory.clone(),
        sections: vec![],
    };
    apply_relocations(&parsed, &mut mapped).unwrap();
    assert!(mapped.memory != memory);
    assert_eq!(mapped.memory.len(), memory.len());
    parsed.image_base = away;
    mapped.selected_base = home;
    apply_relocations(&parsed, &mut mapped).unwrap();
    assert!(mapped.memory == memory);
}

#[test]
fn an_image_takes_the_room_that_it_says() {
    let mut parsed = image();
    assert_eq!(room_needed(&parsed).unwrap(), 0x2000);
    let file = vec![7u8; 0x400];
    let mapped = map_image(&file, &parsed, "00", true, 0).unwrap();
    assert_eq!(mapped.memory.len(), 0x2000);
    assert_eq!(mapped.memory[..0x400], file[..]);
    let over = map_over(vec![0; 0x2000], &file, &parsed, mapped.selected_base).unwrap();
    assert!(over.memory == mapped.memory);
    let error = map_image(&file[1..], &parsed, "00", true, 0).unwrap_err();
    assert_eq!(error.message, "headers exceeds file size");
    parsed.size_of_headers = 0x2001;
    for error in [
        room_needed(&parsed).unwrap_err(),
        map_image(&file, &parsed, "00", true, 0).unwrap_err(),
    ] {
        assert_eq!(error.code, ReasonCode::RcPeParseInvalid);
        assert_eq!(error.message, "SizeOfHeaders exceeds SizeOfImage");
    }
}

#[test]
fn each_word_moves_with_its_image() {
    let parsed = relocatable();
    let memory: Vec<u8> = (0..0x2000u32).map(|i| (i * 7) as u8).collect();
    let distance = 0x1_0000_5000u64;
    let mut mapped = MappedImage {
        preferred_base: parsed.image_base,
        selected_base: parsed.image_base + distance,
        memory: memory.clone(),
        sections: vec![],
    };
    apply_relocations(&parsed, &mut mapped).unwrap();
    let wide = |bytes: &[u8]| u64::from_le_bytes(bytes[0x1000..0x1008].try_into().unwrap());
    let narrow = |bytes: &[u8]| u32::from_le_bytes(bytes[0x1010..0x1014].try_into().unwrap());
    assert_eq!(wide(&mapped.memory), wide(&memory).wrapping_add(distance));
    assert_eq!(
        narrow(&mapped.memory),
        narrow(&memory).wrapping_add(0x5000)
    );
    for at in (0..0x1000).chain(0x1008..0x1010).chain(0x1014..0x2000) {
        assert_eq!(mapped.memory[at], memory[at]);
    }
    mapped.selected_base = parsed.image_base;
    let before = mapped.memory.clone();
    apply_relocations(&parsed, &mut mapped).unwrap();
    assert!(mapped.memory == before);
}

#[test]
fn a_relocation_of_an_unknown_kind_is_refused() {
    let mut parsed = relocatable();
    parsed.relocations[0].entries[0].kind = RelocationType::Unsupported(9);
    let mut mapped = MappedImage {
        preferred_base: 0,
        selected_base: 0x1000,
        memory: vec![0; 0x2000],
        sections: vec![],
    };
    let error = apply_relocations(&parsed, &mut mapped).unwrap_err();
    assert_eq!(error.message, "unsupported relocation type 9");
}

#[test]
fn an_image_moves_only_where_it_can() {
    let mut parsed = relocatable();
    assert_eq!(select_image_base(&parsed, "abcd", false, 77), 0x1_4000_0000);
    parsed.dll_characteristics = 0x40;
    for seed in [0u64, 1, 0x1234_5678, u64::MAX] {
        let base = select_image_base(&parsed, "abcd", false, seed);
        assert_eq!(base % 0x1_0000, 0);
        assert!((0x1800_0000_0000..0x2800_0000_0000).contains(&base));
    }
    let steady = select_image_base(&parsed, "abcd", true, 1);
    assert_eq!(select_image_base(&parsed, "abcd", true, 2), steady);
    assert_ne!(hash_seed("abcd"), hash_seed("abce"));
}

#[test]
fn a_mapped_image_holds_its_headers_and_zeros() {
    let file = file_with_section(b".data");
    let parsed = parse(&file).unwrap();
    let mapped = map_image(&file, &parsed, "00", true, 0).unwrap();
    assert_eq!(mapped.memory.len(), 0x2000);
    assert_eq!(mapped.memory[..0x400], file[..]);
    assert!(mapped.memory[0x400..].iter().all(|&byte| byte == 0));
    assert_eq!(mapped.selected_base, 0x0040_0000);
}

// ---------------------------------------------------------------------------
// Resources
// ---------------------------------------------------------------------------

fn resource_file() -> (Vec<u8>, Vec<PeSection>, Vec<DataDirectory>) {
    let mut file = vec![0u8; 0x400];
    let base = 0x200;
    let directory = |file: &mut Vec<u8>, at: usize, id: u32, payload: u32| {
        put16(file, base + at + 14, 1);
        put32(file, base + at + 16, id);
        put32(file, base + at + 20, payload);
    };
    directory(&mut file, 0x00, RT_RCDATA, 0x8000_0018);
    directory(&mut file, 0x18, 7, 0x8000_0030);
    directory(&mut file, 0x30, 0x409, 0x48);
    put32(&mut file, base + 0x48, 0x1058);
    put32(&mut file, base + 0x4c, 4);
    file[base + 0x58..base + 0x5c].copy_from_slice(&[1, 2, 3, 4]);
    let sections = vec![PeSection {
        name: ".rsrc".to_string(),
        virtual_address: 0x1000,
        virtual_size: 0x200,
        raw_data_ptr: 0x200,
        raw_data_size: 0x200,
        characteristics: 0,
    }];
    let directories = vec![
        no_directory(),
        no_directory(),
        DataDirectory {
            virtual_address: 0x1000,
            size: 0x100,
        },
    ];
    (file, sections, directories)
}

#[test]
fn a_resource_is_found_by_its_type_and_name() {
    let (file, sections, directories) = resource_file();
    let find = |type_id: u32, name: ResourceName| {
        find_resource_data_entry_by_key(&file, &sections, &directories, type_id, &name).unwrap()
    };
    assert_eq!(find(RT_RCDATA, ResourceName::Id(7)), Some((0x1058, 4)));
    assert_eq!(find(RT_RCDATA, ResourceName::Id(8)), None);
    assert_eq!(find(RT_RCDATA, ResourceName::Str("seven".to_string())), None);
    assert_eq!(find(RT_RCDATA + 1, ResourceName::Id(7)), None);
    assert_eq!(
        extract_resource_payload(&file, &sections, 0x1058, 4).unwrap(),
        Some(vec![1, 2, 3, 4])
    );
    assert_eq!(
        find_resource_blob(&file, &sections, &directories, RT_RCDATA).unwrap(),
        Some(vec![1, 2, 3, 4])
    );
    assert_eq!(rva_to_file_offset(0x1058, 4, &sections, 0x200).unwrap(), 0x258);
}

#[test]
fn an_image_without_resources_has_no_icons() {
    let file = file_with_section(b".text");
    assert_eq!(find_resource_group_icons(&file).unwrap().len(), 0);
    assert_eq!(extract_icon_from_pe(&file).unwrap().len(), 0);
    assert_eq!(version_resource_blob(&file).unwrap(), None);
    assert!(extract_icon_from_pe(b"MZ").is_err());
}

// ---------------------------------------------------------------------------
// Manifests and modules
// ---------------------------------------------------------------------------

#[test]
fn a_manifest_is_read_as_xml() {
    let xml = b"<assembly xmlns=\"urn:schemas-microsoft-com:asm.v1\"><dependency>\
        <dependentAssembly><assemblyIdentity name=\"A &amp; B\" version=\"1.0.0.0\"/>\
        </dependentAssembly></dependency></assembly>";
    let manifest = parse_manifest_bytes(xml, ManifestSource::External).unwrap();
    assert_eq!(manifest.source, ManifestSource::External);
    assert_eq!(manifest.assemblies.len(), 1);
    assert_eq!(manifest.assemblies[0].name, "A & B");
    assert_eq!(manifest.assemblies[0].version.as_deref(), Some("1.0.0.0"));
    assert_eq!(
        parse_manifest_bytes(b"<assembly>", ManifestSource::Embedded).unwrap_err().code,
        ReasonCode::RcPeParseInvalid
    );
}

#[test]
fn an_assembly_of_the_runtime_brings_its_libraries() {
    let identity = |name: &str| AssemblyIdentity {
        name: name.to_string(),
        version: Some("9.0".to_string()),
        processor_architecture: None,
        public_key_token: None,
        type_attr: None,
    };
    assert!(!vc_runtime_dlls(&identity("Microsoft.VC90.CRT")).is_empty());
    assert!(vc_runtime_dlls(&identity("Some.Other")).is_empty());
    assert!(activation_key(&identity("Some.Other")).contains("some.other"));
}

#[test]
fn a_module_has_one_name() {
    for name in ["  KERNEL32 ", "Foo.DLL", "bar.exe", "\u{c4}.dll"] {
        let once = normalize_module_name(name);
        assert_eq!(normalize_module_name(&once), once);
    }
    assert_eq!(normalize_module_name(" KERNEL32 "), "kernel32.dll");
    let (module, symbol) = parse_forwarder_string("NTDLL.#12").unwrap();
    assert_eq!(module, "ntdll.dll");
    assert_eq!(symbol, ImportSymbol::ByOrdinal { ordinal: 12 });
    assert!(parse_forwarder_string("nodot").is_err());
    for (text, hint) in [
        ("a.#", "cannot parse integer from empty string"),
        ("a.#+", "invalid digit found in string"),
        ("a.#1x", "invalid digit found in string"),
        ("a.#65536", "number too large to fit in target type"),
    ] {
        let error = parse_forwarder_string(text).unwrap_err();
        assert_eq!(error.message, "forwarder ordinal is not numeric");
        assert_eq!(error.hint.as_deref(), Some(hint));
    }
}

#[test]
fn a_contract_has_a_host() {
    let resolver = ApiSetResolver::new().with_mapping("api-ms-win-custom-l1-1-0", "custom.dll");
    assert_eq!(resolver.resolve("API-MS-Win-Custom-l1-1-0.dll"), "custom.dll");
    let copy = resolver.clone();
    assert_eq!(copy.resolve("API-MS-Win-Custom-l1-1-0"), "custom.dll");
    assert_eq!(resolver.resolve("user32"), "user32.dll");
}

#[test]
fn the_host_of_a_contract_is_its_own_host() {
    let resolver = ApiSetResolver::new();
    for name in [
        "api-ms-win-core-file-l1-1-0",
        " EXT-MS-WIN-NTUSER-window-l1-1-0.dll ",
        "ext-ms-win-ntos-kernel-l1-1-0",
        "api-ms-win-unheard-of",
        "Some.Module",
        "plain",
    ] {
        let host = resolver.resolve(name);
        assert_eq!(resolver.resolve(&host), host);
    }
    assert_eq!(resolver.resolve("Some.Module"), "some.module");
}

#[test]
fn a_refusal_says_why() {
    let error = parse_manifest_bytes(b"<assembly>", ManifestSource::Embedded).unwrap_err();
    assert_eq!(error.message, "failed to parse manifest XML");
    assert!(!error.hint.unwrap().is_empty());
    let error = parse_manifest_bytes(&[b'<', 0xff], ManifestSource::Embedded).unwrap_err();
    assert_eq!(error.message, "manifest payload is not valid UTF-8");
    assert_eq!(
        error.hint.as_deref(),
        Some("invalid utf-8 sequence of 1 bytes from index 1")
    );
    let error = parse_manifest_bytes(&[0xff, 0xfe, 0, 0xd8], ManifestSource::Embedded).unwrap_err();
    assert_eq!(error.message, "invalid UTF-16 payload");
    assert_eq!(
        error.hint.as_deref(),
        Some("invalid utf-16: lone surrogate found")
    );
    let error = read_c_string(&[0xc3, 0], 0, "name").unwrap_err();
    assert_eq!(error.message, "name is not valid UTF-8");
    assert_eq!(
        error.hint.as_deref(),
        Some("incomplete utf-8 byte sequence from index 0")
    );
    let error = rva_to_file_offset(0x1234, 1, &[], 0).unwrap_err();
    assert_eq!(error.message, "RVA 0x00001234 is not backed by file data");
    let mut tables = NameMap::new();
    tables.insert("a.dll".to_string(), vec![]);
    let resolver = ApiSetResolver::new();
    let symbol = ImportSymbol::ByName {
        hint: 3,
        name: "go\"\n".to_string(),
    };
    let error = resolve_export_symbol(&symbol, "a.dll", &tables, &resolver).unwrap_err();
    assert_eq!(
        error.message,
        format!("missing import {symbol:?} from a.dll")
    );
    let symbol = ImportSymbol::ByOrdinal { ordinal: 12 };
    let error = resolve_export_symbol(&symbol, "a.dll", &tables, &resolver).unwrap_err();
    assert_eq!(
        error.message,
        format!("missing import {symbol:?} from a.dll")
    );
}

fn export(ordinal: u32, name: &str, target: ExportTarget) -> ExportSymbol {
    ExportSymbol {
        ordinal,
        name: Some(name.to_string()),
        target,
    }
}

fn by_name(name: &str) -> ImportSymbol {
    ImportSymbol::ByName {
        hint: 0,
        name: name.to_string(),
    }
}

#[test]
fn an_export_is_followed_to_where_it_is_forwarded() {
    let mut tables = NameMap::new();
    tables.insert(
        "a.dll".to_string(),
        vec![
            export(1, "go", ExportTarget::Forwarder("b.run".to_string())),
            export(2, "loop", ExportTarget::Forwarder("a.loop".to_string())),
            export(3, "lost", ExportTarget::Forwarder("c.run".to_string())),
        ],
    );
    tables.insert(
        "b.dll".to_string(),
        vec![export(1, "run", ExportTarget::Rva(0x1234))],
    );
    let resolver = ApiSetResolver::new();
    let found = resolve_export_symbol(&by_name("go"), "a.dll", &tables, &resolver).unwrap();
    assert_eq!(found.target, ExportTarget::Rva(0x1234));
    let ordinal = ImportSymbol::ByOrdinal { ordinal: 1 };
    let found = resolve_export_symbol(&ordinal, "a.dll", &tables, &resolver).unwrap();
    assert_eq!(found.target, ExportTarget::Rva(0x1234));
    for (name, code) in [
        ("loop", ReasonCode::RcPeParseInvalid),
        ("lost", ReasonCode::RcImportMissing),
        ("missing", ReasonCode::RcImportMissing),
    ] {
        let refused = resolve_export_symbol(&by_name(name), "a.dll", &tables, &resolver);
        assert_eq!(refused.unwrap_err().code, code);
    }
    assert!(matches!(
        lookup_export_symbol(&by_name("lost"), "a.dll", &tables, &resolver),
        Err(ExportLookupFailure::MissingProvider(_))
    ));
    assert!(matches!(
        lookup_export_symbol(&by_name("missing"), "a.dll", &tables, &resolver),
        Err(ExportLookupFailure::MissingSymbol(_))
    ));
    assert!(matches!(
        lookup_export_symbol(&by_name("loop"), "a.dll", &tables, &resolver),
        Err(ExportLookupFailure::Parser(_))
    ));
}

#[test]
fn modules_are_loaded_after_what_they_need() {
    let mut needs = NameMap::new();
    let list = |names: &[&str]| names.iter().map(|name| name.to_string()).collect::<Vec<_>>();
    needs.insert("app.dll".to_string(), list(&["b.dll", "a.dll"]));
    needs.insert("a.dll".to_string(), list(&["c.dll"]));
    needs.insert("b.dll".to_string(), list(&["c.dll"]));
    needs.insert("stranger.dll".to_string(), list(&["a.dll"]));
    let plan = plan_lifecycle("app.dll", &needs, &NameMap::new()).unwrap();
    let place_of = |name: &str| {
        plan.load_order
            .iter()
            .position(|module| module == name)
            .unwrap()
    };
    assert!(place_of("c.dll") < place_of("a.dll") && place_of("c.dll") < place_of("b.dll"));
    assert_eq!(place_of("app.dll"), plan.load_order.len() - 1);
    assert_eq!(plan.load_order.len(), 4);
    let attached: Vec<&str> = plan
        .process_attach
        .iter()
        .map(|event| event.module.as_str())
        .collect();
    let mut detached: Vec<&str> = plan
        .process_detach
        .iter()
        .map(|event| event.module.as_str())
        .collect();
    detached.reverse();
    assert_eq!(attached, detached);

    needs.insert("c.dll".to_string(), list(&["app.dll"]));
    assert_eq!(
        plan_lifecycle("app.dll", &needs, &NameMap::new()).unwrap_err().code,
        ReasonCode::RcPeParseInvalid
    );
}
