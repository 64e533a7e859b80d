use game::weapon::attachment::{
    AttachmentCatalog, AttachmentCategory, AttachmentDef, AttachmentEquipError, AttachmentId,
    AttachmentLoadout, CatalogError, ALL_ATTACHMENT_CATEGORIES,
};

fn def(id: &str, name: &str, category: AttachmentCategory) -> AttachmentDef {
    AttachmentDef { id: id.to_string(), name: name.to_string(), category }
}

/// A catalogue with one or more entries per category.
fn catalog() -> AttachmentCatalog {
    AttachmentCatalog::from_defs(vec![
        def("red_dot", "Red Dot", AttachmentCategory::Optic),
        def("holo_sight", "Holo Sight", AttachmentCategory::Optic),
        def("suppressor", "Suppressor", AttachmentCategory::Barrel),
        def("vertical_grip", "Vertical Grip", AttachmentCategory::Grip),
        def("extended_mag", "Extended Mag", AttachmentCategory::Magazine),
        def("tactical_stock", "Tactical Stock", AttachmentCategory::Stock),
        def("laser_pointer", "Laser Pointer", AttachmentCategory::Underbarrel),
    ])
    .expect("valid catalogue")
}

#[test]
fn attachment_categories_are_fixed_and_complete() {
    assert_eq!(
        ALL_ATTACHMENT_CATEGORIES,
        [
            AttachmentCategory::Optic,
            AttachmentCategory::Barrel,
            AttachmentCategory::Grip,
            AttachmentCategory::Magazine,
            AttachmentCategory::Stock,
            AttachmentCategory::Underbarrel,
        ]
    );
}

#[test]
fn attachment_catalog_loads_from_json() {
    let cat = catalog();
    let defs = cat.defs();
    let ids = cat.all_attachment_ids();
    assert!(!defs.is_empty());
    assert_eq!(defs.len(), ids.len());
    assert!(defs.iter().any(|def| {
        def.id == "red_dot" && def.category == AttachmentCategory::Optic && def.name == "Red Dot"
    }));
}

#[test]
fn attachment_lookup_by_name_and_id_is_case_flexible() {
    let cat = catalog();
    let from_name = cat.attachment_id_by_name("Red Dot").expect("Red Dot should exist");
    let from_id = cat.attachment_id_by_name("RED_DOT").expect("red_dot should exist");
    let by_id = cat.attachment_id_by_id("ReD_DoT").expect("red_dot should exist");
    assert_eq!(from_name.id(), "red_dot");
    assert_eq!(from_name.category(), AttachmentCategory::Optic);
    assert_eq!(from_id.id(), "red_dot");
    assert_eq!(by_id.id(), "red_dot");
    assert_eq!(cat.attachment_name(&from_id), Some("Red Dot"));
}

#[test]
fn each_fixed_category_has_at_least_one_catalog_entry() {
    let cat = catalog();
    for category in AttachmentCategory::all() {
        assert!(
            !cat.attachment_ids_for_category(*category).is_empty(),
            "missing attachment for category {category:?}"
        );
    }
}

#[test]
fn empty_slot_is_none_and_equip_sets_one_active_attachment() {
    let mut loadout = AttachmentLoadout::default();
    assert!(loadout.is_empty(AttachmentCategory::Optic));

    let optic = AttachmentId::new("red_dot", AttachmentCategory::Optic);
    assert_eq!(loadout.equip(optic), None);
    assert_eq!(loadout.get(AttachmentCategory::Optic).map(|a| a.id()), Some("red_dot"));
}

#[test]
fn replacing_attachment_overrides_previous_one_in_same_slot() {
    let mut loadout = AttachmentLoadout::default();

    let first = AttachmentId::new("red_dot", AttachmentCategory::Optic);
    let second = AttachmentId::new("holo_sight", AttachmentCategory::Optic);

    assert_eq!(loadout.equip(first), None);
    let replaced = loadout.equip(second);

    assert_eq!(replaced.map(|a| a.id().to_string()), Some("red_dot".to_string()));
    assert_eq!(loadout.get(AttachmentCategory::Optic).map(|a| a.id()), Some("holo_sight"));
}

#[test]
fn cross_category_equip_is_rejected() {
    let mut loadout = AttachmentLoadout::default();
    let attachment = AttachmentId::new("red_dot", AttachmentCategory::Optic);

    let err = loadout
        .equip_in_slot(AttachmentCategory::Barrel, attachment)
        .expect_err("category mismatch should fail");

    assert_eq!(
        err,
        AttachmentEquipError::CategoryMismatch {
            slot: AttachmentCategory::Barrel,
            attachment: AttachmentCategory::Optic,
        }
    );
}

#[test]
fn equip_leaves_other_slots_alone() {
    let mut loadout = AttachmentLoadout::new();
    loadout.equip(AttachmentId::new("red_dot", AttachmentCategory::Optic));
    loadout.equip(AttachmentId::new("suppressor", AttachmentCategory::Barrel));
    assert_eq!(loadout.get(AttachmentCategory::Optic).map(|a| a.id()), Some("red_dot"));
    assert_eq!(loadout.get(AttachmentCategory::Barrel).map(|a| a.id()), Some("suppressor"));
    assert!(loadout.is_empty(AttachmentCategory::Grip));
    assert_eq!(loadout.unequip(AttachmentCategory::Optic).map(|a| a.id().to_string()), Some("red_dot".to_string()));
    assert!(loadout.is_empty(AttachmentCategory::Optic));
}

#[test]
fn catalogue_errors_name_the_offending_entry() {
    let blank = AttachmentCatalog::from_defs(vec![
        def("red_dot", "Red Dot", AttachmentCategory::Optic),
        def("holo_sight", "   ", AttachmentCategory::Optic),
    ]);
    assert_eq!(blank.err(), Some(CatalogError::BlankName(1)));

    let not_snake = AttachmentCatalog::from_defs(vec![def("Red-Dot", "Red Dot", AttachmentCategory::Optic)]);
    assert_eq!(not_snake.err(), Some(CatalogError::NonSnakeCaseId(0)));

    let empty = AttachmentCatalog::from_defs(vec![]);
    assert_eq!(empty.err(), Some(CatalogError::NoEntries));

    let dup = AttachmentCatalog::from_defs(vec![
        def("red_dot", "Red Dot", AttachmentCategory::Optic),
        def("red_dot", "Other Dot", AttachmentCategory::Optic),
    ]);
    assert!(matches!(dup.err(), Some(CatalogError::DuplicateId(_))));
}

#[test]
fn catalogue_lists_ids_sorted_by_category_then_name() {
    let cat = catalog();
    let optics: Vec<String> = cat
        .attachment_ids_for_category(AttachmentCategory::Optic)
        .iter()
        .map(|a| a.id().to_string())
        .collect();
    assert_eq!(optics, vec!["holo_sight".to_string(), "red_dot".to_string()]);
    assert_eq!(cat.all_attachment_ids().len(), 7);
    assert!(cat.attachment_id_by_name("missing").is_none());
    assert_eq!(AttachmentCategory::Underbarrel.label(), "Underbarrel");
    assert_eq!(AttachmentCategory::Stock.index(), 4);
}
