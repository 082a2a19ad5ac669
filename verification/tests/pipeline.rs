use notetype::AnkiError;
use notetype::CardRequirementKind;
use notetype::Collection;
use notetype::FieldRenames;
use notetype::FieldRequirements;
use notetype::NoteField;
use notetype::Notetype;
use notetype::NotetypeId;
use notetype::TimestampSecs;
use notetype::parse;

fn basic(name: &str) -> Notetype {
    let mut nt = Notetype::default();
    nt.name = name.to_owned();
    nt.add_field("Front");
    nt.add_field("Back");
    nt.add_template("Card 1", "{{Front}}", "{{Front}}<hr>{{Back}}");
    nt
}

#[test]
fn unique_names_distinct_and_idempotent() {
    let mut nt = Notetype::default();
    nt.name = "T".to_owned();
    nt.add_field("Front");
    nt.add_field("front");
    nt.add_field("FRONT");
    nt.add_template("Card", "{{Front}}", "");
    nt.add_template("card", "", "");
    nt.ensure_names_unique();
    assert_eq!(nt.fields[0].name, "Front");
    assert_eq!(nt.fields[1].name, "front+");
    assert_eq!(nt.fields[2].name, "FRONT++");
    assert_eq!(nt.templates[0].name, "Card");
    assert_eq!(nt.templates[1].name, "card+");
    let before: Vec<String> = nt.fields.iter().map(|f| f.name.clone()).collect();
    nt.ensure_names_unique();
    let after: Vec<String> = nt.fields.iter().map(|f| f.name.clone()).collect();
    assert_eq!(before, after);
}

#[test]
fn unique_names_folds_unicode() {
    let mut nt = Notetype::default();
    nt.name = "T".to_owned();
    nt.add_field("Ma\u{df}e");
    nt.add_field("MASSE");
    nt.add_template("C", "", "");
    nt.ensure_names_unique();
    assert_eq!(nt.fields[0].name, "Ma\u{df}e");
    assert_eq!(nt.fields[1].name, "MASSE+");
}

#[test]
fn sort_index_follows_reorder() {
    let mut nt = Notetype::default();
    nt.fields.push(NoteField { ord: Some(2), name: "C".to_owned() });
    nt.fields.push(NoteField { ord: Some(0), name: "A".to_owned() });
    nt.fields.push(NoteField { ord: Some(1), name: "B".to_owned() });
    nt.config.sort_field_idx = 1;
    nt.reposition_sort_idx();
    assert_eq!(nt.config.sort_field_idx, 2);
}

#[test]
fn sort_index_clamped_when_field_deleted() {
    let mut nt = Notetype::default();
    nt.fields.push(NoteField { ord: Some(0), name: "A".to_owned() });
    nt.fields.push(NoteField { ord: Some(2), name: "C".to_owned() });
    nt.config.sort_field_idx = 5;
    nt.reposition_sort_idx();
    assert_eq!(nt.config.sort_field_idx, 1);
}

#[test]
fn requirement_for_single_field_question() {
    let pt = parse("{{Front}}").unwrap();
    let names = vec!["Front".to_owned(), "Back".to_owned()];
    match pt.requirements(&names) {
        FieldRequirements::Any(ords) => assert_eq!(ords, vec![0u16]),
        _ => panic!("expected a single-field requirement"),
    }
}

#[test]
fn requirement_all_under_conditional() {
    let pt = parse("{{#Back}}{{Front}}{{/Back}}").unwrap();
    let names = vec!["Front".to_owned(), "Back".to_owned()];
    match pt.requirements(&names) {
        FieldRequirements::All(ords) => assert_eq!(ords, vec![0u16, 1u16]),
        other => panic!("expected an all-fields requirement, got {:?}", kind_name(&other)),
    }
}

fn kind_name(r: &FieldRequirements) -> &'static str {
    match r {
        FieldRequirements::Any(_) => "any",
        FieldRequirements::All(_) => "all",
        FieldRequirements::Unsatisfiable => "unsatisfiable",
    }
}

#[test]
fn requirement_unsatisfiable_for_unparseable() {
    assert!(parse("{{Front").is_none());
    let mut nt = basic("T");
    nt.templates[0].config.q_format = "{{Front".to_owned();
    let parsed = nt.parsed_templates();
    let reqs = nt.updated_requirements(&parsed);
    assert_eq!(reqs.len(), 1);
    assert_eq!(reqs[0].card_ord, 0);
    assert!(matches!(reqs[0].kind, CardRequirementKind::Unsatisfiable));
    assert!(reqs[0].field_ords.is_empty());
}

#[test]
fn rename_propagates_and_requirements_survive() {
    let mut existing = basic("T");
    assert!(existing.prepare_for_adding().is_ok());
    match parse(&existing.templates[0].config.q_format)
        .unwrap()
        .requirements(&existing.field_names_vec())
    {
        FieldRequirements::Any(ords) => assert_eq!(ords, vec![0u16]),
        _ => panic!("expected a single-field requirement before the rename"),
    }

    let mut updated = basic("T");
    updated.fields[0].ord = Some(0);
    updated.fields[1].ord = Some(1);
    updated.fields[0].name = "Question".to_owned();
    assert!(updated.prepare_for_update(Some(&existing)).is_ok());
    assert_eq!(updated.templates[0].config.q_format, "{{Question}}");
    assert_eq!(
        updated.templates[0].config.a_format,
        "{{Question}}<hr>{{Back}}"
    );
    match parse(&updated.templates[0].config.q_format)
        .unwrap()
        .requirements(&updated.field_names_vec())
    {
        FieldRequirements::Any(ords) => assert_eq!(ords, vec![0u16]),
        _ => panic!("expected the same requirement after the rename"),
    }
}

#[test]
fn removal_strips_references_and_keeps_the_rest() {
    let pt = parse("a{{Front}}b{{#Back}}{{Back}}{{/Back}}c{{Other}}").unwrap();
    let map = FieldRenames {
        entries: vec![("Back".to_owned(), None)],
    };
    let out = pt.rename_and_remove_fields(&map);
    assert_eq!(out.to_source(), "a{{Front}}bc{{Other}}");
}

#[test]
fn unparsed_template_left_byte_for_byte() {
    let mut nt = basic("T");
    nt.templates[0].config.q_format = "{{broken".to_owned();
    let parsed = nt.parsed_templates();
    let map = FieldRenames {
        entries: vec![("Front".to_owned(), None)],
    };
    nt.update_templates_for_renamed_and_removed_fields(&map, &parsed);
    assert_eq!(nt.templates[0].config.q_format, "{{broken");
    assert_eq!(nt.templates[0].config.a_format, "<hr>{{Back}}");
}

#[test]
fn round_trip_parse_to_source() {
    let src = "a{{#X}}{{Y}}{{/X}}b{{^Z}}t{{/Z}}";
    let pt = parse(src).unwrap();
    assert_eq!(pt.to_source(), src);
}

#[test]
fn unbalanced_sections_rejected() {
    assert!(parse("{{#X}}{{Y}}").is_none());
    assert!(parse("{{/X}}").is_none());
    assert!(parse("{{#X}}{{Y}}{{/W}}").is_none());
    assert!(parse("{{}}").is_none());
}

#[test]
fn empty_schema_rejected_without_persisting() {
    let mut col = Collection::new();
    let mut nt = Notetype::default();
    nt.name = "Empty".to_owned();
    match col.add_notetype(&mut nt) {
        Err(AnkiError::InvalidInput(m)) => assert_eq!(m, "1 field required"),
        _ => panic!("expected invalid input"),
    }
    assert_eq!(col.get_all_notetypes().unwrap().len(), 0);

    let mut nt2 = Notetype::default();
    nt2.name = "NoTemplates".to_owned();
    nt2.add_field("Front");
    match col.add_notetype(&mut nt2) {
        Err(AnkiError::InvalidInput(m)) => assert_eq!(m, "1 template required"),
        _ => panic!("expected invalid input"),
    }
    assert_eq!(col.get_all_notetypes().unwrap().len(), 0);
}

#[test]
fn empty_name_rejected() {
    let mut nt = basic("\"\"");
    match nt.prepare_for_adding() {
        Err(AnkiError::InvalidInput(m)) => assert_eq!(m, "Empty note type name"),
        _ => panic!("expected invalid input"),
    }
}

#[test]
fn template_save_error_carries_ordinal() {
    let mut nt = basic("T");
    nt.add_template("Card 2", "{{broken", "x");
    match nt.prepare_for_adding() {
        Err(AnkiError::TemplateSaveError(e)) => {
            assert_eq!(e.notetype, "T");
            assert_eq!(e.ordinal, 1);
        },
        _ => panic!("expected a template save error"),
    }
}

#[test]
fn stale_write_rejected_and_storage_untouched() {
    let mut col = Collection::new();
    let mut nt = basic("T");
    assert!(col.add_notetype(&mut nt).is_ok());
    let id = nt.id;

    let mut newer = col.get_notetype(id).unwrap().unwrap();
    newer.mtime_secs = TimestampSecs(newer.mtime_secs.0 - 10);
    newer.name = "Renamed".to_owned();
    match col.update_notetype(&mut newer, false) {
        Err(AnkiError::InvalidInput(m)) => assert_eq!(m, "attempt to save stale notetype"),
        _ => panic!("expected the stale write to be rejected"),
    }
    let stored = col.get_notetype(id).unwrap().unwrap();
    assert_eq!(stored.name, "T");
}

#[test]
fn removing_last_schema_leaves_one_stock_schema() {
    let mut col = Collection::new();
    let mut nt = basic("Only");
    assert!(col.add_notetype(&mut nt).is_ok());
    assert!(col.remove_notetype(nt.id).is_ok());
    let all = col.get_all_notetypes().unwrap();
    assert_eq!(all.len(), 1);
    assert_eq!(all[0].1.name, "Basic");
    assert_eq!(col.current_notetype_id, all[0].0);
    assert!(col.schema_modified);
}

#[test]
fn removing_one_of_two_sets_first_current() {
    let mut col = Collection::new();
    let mut a = basic("A");
    let mut b = basic("B");
    assert!(col.add_notetype(&mut a).is_ok());
    assert!(col.add_notetype(&mut b).is_ok());
    assert!(col.remove_notetype(a.id).is_ok());
    let all = col.get_all_notetypes().unwrap();
    assert_eq!(all.len(), 1);
    assert_eq!(all[0].1.name, "B");
    assert_eq!(col.current_notetype_id, b.id);
}

#[test]
fn cache_reflects_update_and_old_snapshot_survives() {
    let mut col = Collection::new();
    let mut nt = basic("T");
    assert!(col.add_notetype(&mut nt).is_ok());
    let id = nt.id;
    let old_snapshot = col.get_notetype(id).unwrap().unwrap();

    let mut edit = col.get_notetype(id).unwrap().unwrap();
    edit.add_field("Extra");
    assert!(col.update_notetype(&mut edit, false).is_ok());

    let fresh = col.get_notetype(id).unwrap().unwrap();
    assert_eq!(fresh.fields.len(), 3);
    assert_eq!(old_snapshot.fields.len(), 2);
}

#[test]
fn get_by_name_and_field_lookup_fold_cases() {
    let mut col = Collection::new();
    let mut nt = basic("Lookup");
    assert!(col.add_notetype(&mut nt).is_ok());
    let found = col.get_notetype_by_name("Lookup").unwrap().unwrap();
    assert_eq!(found.id, nt.id);
    assert!(col.get_notetype_by_name("lookup").unwrap().is_none());

    assert_eq!(found.get_field_ord("FRONT"), Some(0));
    assert_eq!(found.get_field_ord("back"), Some(1));
    assert_eq!(found.get_field_ord("Bogus"), None);
}

#[test]
fn added_names_collide_into_markers() {
    let mut col = Collection::new();
    let mut a = basic("Same");
    let mut b = basic("Same");
    assert!(col.add_notetype(&mut a).is_ok());
    assert!(col.add_notetype(&mut b).is_ok());
    assert_eq!(b.name, "Same+");
    assert_ne!(a.id, b.id);
}

#[test]
fn names_are_normalized_to_nfc() {
    let mut nt = basic("e\u{301}tude");
    nt.fields[0].name = "Pre\u{301}cis".to_owned();
    assert!(nt.prepare_for_adding().is_ok());
    assert_eq!(nt.name, "\u{e9}tude");
    assert_eq!(nt.fields[0].name, "Pr\u{e9}cis");
}

#[test]
fn field_names_sanitized_or_rejected() {
    let mut nt = basic("T");
    nt.fields[0].name = "Fr{on}t:".to_owned();
    assert!(nt.prepare_for_adding().is_ok());
    assert_eq!(nt.fields[0].name, "Front");

    let mut bad = basic("T");
    bad.fields[0].name = "{}:\"".to_owned();
    match bad.prepare_for_adding() {
        Err(AnkiError::InvalidInput(m)) => assert_eq!(m, "empty field name"),
        _ => panic!("expected invalid input"),
    }
}

#[test]
fn get_template_cloze_and_missing() {
    let mut nt = basic("T");
    assert!(nt.get_template(0).is_ok());
    match nt.get_template(3) {
        Err(AnkiError::NotFound) => {},
        _ => panic!("expected not found"),
    }
    nt.config.kind = notetype::NotetypeKind::Cloze;
    assert_eq!(nt.get_template(7).unwrap().name, "Card 1");
}

#[test]
fn new_note_has_empty_slot_per_field() {
    let mut nt = basic("T");
    nt.id = NotetypeId(5);
    let note = nt.new_note();
    assert_eq!(note.notetype_id, NotetypeId(5));
    assert_eq!(note.fields.len(), 2);
    assert!(note.fields.iter().all(|f| f.is_empty()));
}

#[test]
fn modification_time_is_stamped() {
    let mut col = Collection::new();
    let mut nt = basic("T");
    assert!(col.add_notetype(&mut nt).is_ok());
    assert!(nt.mtime_secs.0 > 0);
    assert_eq!(nt.target_deck_id(), notetype::DeckId(1));
}
