use dsarm::relocation::{Relocation, RelocationKind, RelocationModule, Relocations};
use dsarm::reloc_text::{ParseContext, ParseError};

fn ctx(row: usize) -> ParseContext {
    ParseContext { file_path: String::from("relocs.txt"), row }
}

#[test]
fn parse_canonical_line_and_serialize_back() {
    let line = "from:0x0200005c kind:thumb_call to:0x020001a0 module:overlay(3)";
    let r = Relocation::parse(line, &ctx(1)).unwrap().unwrap();
    assert_eq!(r.from_address(), 0x0200005c);
    assert_eq!(r.to_address(), 0x020001a0);
    assert_eq!(r.kind(), RelocationKind::ThumbCall);
    assert_eq!(*r.module(), RelocationModule::Overlay { id: 3 });
    assert_eq!(r.text_line(), line);
}

#[test]
fn parse_accepts_any_attribute_order() {
    let line = "module:main to:0x02000000 kind:arm_call from:0x02000010";
    let r = Relocation::parse(line, &ctx(1)).unwrap().unwrap();
    assert_eq!(r.from_address(), 0x02000010);
    assert_eq!(r.kind(), RelocationKind::ArmCall);
    assert_eq!(*r.module(), RelocationModule::Main);
}

#[test]
fn parse_overlays_requires_two_ids() {
    let line = "from:0x0200005c kind:load to:0x020001a0 module:overlays(3)";
    assert_eq!(Relocation::parse(line, &ctx(5)), Err(ParseError { row: 5 }));
}

#[test]
fn parse_overlays_with_ids() {
    let line = "from:0x0200005c kind:load to:0x020001a0 module:overlays(3,17)";
    let r = Relocation::parse(line, &ctx(1)).unwrap().unwrap();
    assert_eq!(*r.module(), RelocationModule::Overlays { ids: vec![3, 17] });
    assert_eq!(r.text_line(), line);
}

#[test]
fn parse_skips_blank_line() {
    assert_eq!(Relocation::parse("", &ctx(1)), Ok(None));
    assert_eq!(Relocation::parse("   \t ", &ctx(1)), Ok(None));
}

#[test]
fn parse_rejects_unknown_kind() {
    let line = "from:0x0 kind:jump to:0x0 module:main";
    assert!(Relocation::parse(line, &ctx(2)).is_err());
}

#[test]
fn parse_rejects_unknown_key() {
    let line = "from:0x0 kind:load to:0x0 module:main extra:1";
    assert!(Relocation::parse(line, &ctx(2)).is_err());
}

#[test]
fn parse_rejects_missing_key() {
    let line = "from:0x0 kind:load module:main";
    assert!(Relocation::parse(line, &ctx(2)).is_err());
}

#[test]
fn parse_rejects_bad_address() {
    assert!(Relocation::parse("from:0xzz kind:load to:0x0 module:main", &ctx(1)).is_err());
    assert!(Relocation::parse("from:12 kind:load to:0x0 module:main", &ctx(1)).is_err());
}

#[test]
fn parse_rejects_options_on_plain_module() {
    assert!(Relocation::parse("from:0x0 kind:load to:0x0 module:main(1)", &ctx(1)).is_err());
    assert!(Relocation::parse("from:0x0 kind:load to:0x0 module:none(2)", &ctx(1)).is_err());
}

#[test]
fn table_text_round_trip() {
    let mut t = Relocations::new();
    t.add_load(0x02000010, 0x02100000, RelocationModule::Overlays { ids: vec![1, 2] })
        .unwrap();
    t.add_call(0x0200005c, 0x020001a0, RelocationModule::Overlay { id: 3 }, true, true)
        .unwrap();
    t.add_call(0x02000100, 0x02000200, RelocationModule::Main, false, false).unwrap();
    let text = t.to_text();
    let back = Relocations::from_text(&text).unwrap();
    assert_eq!(back.iter().len(), 3);
    for (a, b) in t.iter().iter().zip(back.iter().iter()) {
        assert_eq!(a.from_address(), b.from_address());
        assert_eq!(a.to_address(), b.to_address());
        assert_eq!(a.kind(), b.kind());
        assert_eq!(a.module(), b.module());
    }
    assert_eq!(back.to_text(), text);
}

#[test]
fn from_text_skips_blanks_and_reports_bad_row() {
    let text = "\nfrom:0x02000010 kind:load to:0x02000020 module:dtcm\n\nnonsense\n";
    assert!(matches!(Relocations::from_text(text), Err(ParseError { row: 4 })));
    let good = "\nfrom:0x02000010 kind:load to:0x02000020 module:dtcm\n";
    let t = Relocations::from_text(good).unwrap();
    assert_eq!(t.iter().len(), 1);
    assert_eq!(*t.iter()[0].module(), RelocationModule::Dtcm);
}

#[test]
fn serialized_line_format_is_exact() {
    let r = Relocation::new_load(0x10, 0xdeadbeef, RelocationModule::Itcm);
    assert_eq!(r.text_line(), "from:0x00000010 kind:load to:0xdeadbeef module:itcm");
}

#[test]
fn elf_mapping_values() {
    assert_eq!(RelocationKind::ArmCall.into_elf_relocation_type(), 1);
    assert_eq!(RelocationKind::ThumbCall.into_elf_relocation_type(), 10);
    assert_eq!(RelocationKind::ArmCallThumb.into_elf_relocation_type(), 15);
    assert_eq!(RelocationKind::ThumbCallArm.into_elf_relocation_type(), 16);
    assert_eq!(RelocationKind::Load.into_elf_relocation_type(), 2);
    assert_eq!(
        RelocationKind::ThumbCall.into_obj_symbol_kind(),
        object::SymbolKind::Text
    );
    assert_eq!(RelocationKind::Load.into_obj_symbol_kind(), object::SymbolKind::Data);
}

#[test]
fn kind_and_module_tokens_parse_alone() {
    assert_eq!(RelocationKind::parse("thumb_call_arm"), Some(RelocationKind::ThumbCallArm));
    assert_eq!(RelocationKind::parse("jump"), None);
    assert_eq!(RelocationModule::parse("dtcm"), Some(RelocationModule::Dtcm));
    assert_eq!(
        RelocationModule::parse("overlays(2,5)"),
        Some(RelocationModule::Overlays { ids: vec![2, 5] })
    );
    assert_eq!(RelocationModule::parse("overlays(2)"), None);
    assert_eq!(RelocationModule::parse("castle"), None);
}

#[test]
fn empty_table_round_trips() {
    let t = Relocations::new();
    let text = t.to_text();
    assert_eq!(text, "");
    let back = Relocations::from_text(&text).unwrap();
    assert_eq!(back.iter().len(), 0);
}
