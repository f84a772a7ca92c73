use dsarm::relocation::{
    AddOutcome, Relocation, RelocationError, RelocationKind, RelocationModule, Relocations,
};
use dsarm::module::{AutoloadKind, ModuleKind};

#[test]
fn call_kind_thumb_thumb() {
    let r = Relocation::new_call(0x100, 0x200, RelocationModule::Main, true, true);
    assert_eq!(r.kind(), RelocationKind::ThumbCall);
}

#[test]
fn call_kind_thumb_arm() {
    let r = Relocation::new_call(0x100, 0x200, RelocationModule::Main, true, false);
    assert_eq!(r.kind(), RelocationKind::ThumbCallArm);
}

#[test]
fn call_kind_arm_thumb() {
    let r = Relocation::new_call(0x100, 0x200, RelocationModule::Main, false, true);
    assert_eq!(r.kind(), RelocationKind::ArmCallThumb);
}

#[test]
fn call_kind_arm_arm() {
    let r = Relocation::new_call(0x100, 0x200, RelocationModule::Main, false, false);
    assert_eq!(r.kind(), RelocationKind::ArmCall);
}

#[test]
fn load_kind_and_accessors() {
    let r = Relocation::new_load(0x2000000, 0x2100000, RelocationModule::Itcm);
    assert_eq!(r.kind(), RelocationKind::Load);
    assert_eq!(r.from_address(), 0x2000000);
    assert_eq!(r.to_address(), 0x2100000);
    assert_eq!(*r.module(), RelocationModule::Itcm);
}

#[test]
fn add_same_relocation_twice_is_idempotent() {
    let mut t = Relocations::new();
    let r1 = Relocation::new_load(0x100, 0x200, RelocationModule::Main);
    let r2 = Relocation::new_load(0x100, 0x200, RelocationModule::Main);
    assert_eq!(t.add(r1), Ok(AddOutcome::Inserted));
    assert_eq!(t.add(r2), Ok(AddOutcome::Duplicate));
    assert_eq!(t.iter().len(), 1);
    assert_eq!(t.iter()[0].to_address(), 0x200);
}

#[test]
fn add_colliding_relocation_fails() {
    let mut t = Relocations::new();
    let r1 = Relocation::new_load(0x100, 0x200, RelocationModule::Main);
    let r2 = Relocation::new_load(0x100, 0x300, RelocationModule::Main);
    assert_eq!(t.add(r1), Ok(AddOutcome::Inserted));
    assert_eq!(t.add(r2), Err(RelocationError::Collision { from: 0x100 }));
    assert_eq!(t.iter().len(), 1);
    assert_eq!(t.iter()[0].to_address(), 0x200);
}

#[test]
fn iteration_is_sorted_by_from() {
    let mut t = Relocations::new();
    t.add_load(0x300, 0x10, RelocationModule::Main).unwrap();
    t.add_load(0x100, 0x20, RelocationModule::Main).unwrap();
    t.add_load(0x200, 0x30, RelocationModule::Main).unwrap();
    let froms: Vec<u32> = t.iter().iter().map(|r| r.from_address()).collect();
    assert_eq!(froms, vec![0x100, 0x200, 0x300]);
}

#[test]
fn get_finds_by_source_address() {
    let mut t = Relocations::new();
    t.add_load(0x100, 0x20, RelocationModule::Main).unwrap();
    t.add_call(0x200, 0x30, RelocationModule::Dtcm, true, true).unwrap();
    assert_eq!(t.get(0x200).unwrap().kind(), RelocationKind::ThumbCall);
    assert!(t.get(0x150).is_none());
}

#[test]
fn iter_range_selects_half_open_interval() {
    let mut t = Relocations::new();
    t.add_load(0x100, 0, RelocationModule::Main).unwrap();
    t.add_load(0x200, 0, RelocationModule::Main).unwrap();
    t.add_load(0x300, 0, RelocationModule::Main).unwrap();
    t.add_load(0x400, 0, RelocationModule::Main).unwrap();
    let froms: Vec<u32> = t.iter_range(0x200, 0x400).iter().map(|r| r.from_address()).collect();
    assert_eq!(froms, vec![0x200, 0x300]);
}

#[test]
fn extend_adds_each_and_reports_collisions() {
    let mut t = Relocations::new();
    let rs = vec![
        Relocation::new_load(0x100, 0x1, RelocationModule::Main),
        Relocation::new_load(0x200, 0x2, RelocationModule::Main),
    ];
    assert!(t.extend(rs).is_ok());
    assert_eq!(t.iter().len(), 2);
    let clash = vec![Relocation::new_load(0x200, 0x9, RelocationModule::Main)];
    assert!(t.extend(clash).is_err());
}

#[test]
fn from_modules_builds_minimal_target() {
    assert_eq!(
        RelocationModule::from_modules(&vec![]),
        Ok(RelocationModule::NoTarget)
    );
    assert_eq!(
        RelocationModule::from_modules(&vec![ModuleKind::Arm9]),
        Ok(RelocationModule::Main)
    );
    assert_eq!(
        RelocationModule::from_modules(&vec![ModuleKind::Autoload(AutoloadKind::Itcm)]),
        Ok(RelocationModule::Itcm)
    );
    assert_eq!(
        RelocationModule::from_modules(&vec![ModuleKind::Overlay(7)]),
        Ok(RelocationModule::Overlay { id: 7 })
    );
    assert_eq!(
        RelocationModule::from_modules(&vec![ModuleKind::Overlay(3), ModuleKind::Overlay(8)]),
        Ok(RelocationModule::Overlays { ids: vec![3, 8] })
    );
}

#[test]
fn from_modules_rejects_mixed_targets() {
    assert_eq!(
        RelocationModule::from_modules(&vec![ModuleKind::Arm9, ModuleKind::Overlay(1)]),
        Err(RelocationError::MixedTarget)
    );
    assert_eq!(
        RelocationModule::from_modules(&vec![ModuleKind::Overlay(1), ModuleKind::Arm9]),
        Err(RelocationError::MixedTarget)
    );
    assert_eq!(
        RelocationModule::from_modules(&vec![ModuleKind::Autoload(AutoloadKind::Unknown)]),
        Err(RelocationError::UnknownAutoload)
    );
}

#[test]
fn first_and_other_modules_of_targets() {
    let single = RelocationModule::Overlay { id: 4 };
    assert_eq!(single.first_module(), Some(ModuleKind::Overlay(4)));
    assert_eq!(single.other_modules(), None);
    let multi = RelocationModule::Overlays { ids: vec![4, 9, 12] };
    assert_eq!(multi.first_module(), Some(ModuleKind::Overlay(4)));
    assert_eq!(
        multi.other_modules(),
        Some(vec![ModuleKind::Overlay(9), ModuleKind::Overlay(12)])
    );
    assert_eq!(RelocationModule::NoTarget.first_module(), None);
}
