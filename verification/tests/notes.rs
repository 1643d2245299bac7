use ios_notes_app::Effect;
use ios_notes_app::Message;
use ios_notes_app::NotesApp;

fn fresh() -> NotesApp {
    let (app, eff) = NotesApp::new();
    assert!(matches!(eff, Effect::Dispatch(Message::LoadNotes)));
    app
}

#[test]
fn new_store_is_empty() {
    let app = fresh();
    assert_eq!(app.notes.len(), 0);
    assert_eq!(app.next_id, 0);
}

#[test]
fn window_title_is_fixed() {
    let app = fresh();
    assert_eq!(app.title(), "iOS Notes App");
}

#[test]
fn add_note_uses_placeholder_and_advances_allocator() {
    let mut app = fresh();
    app.add_note();
    assert_eq!(app.notes.len(), 1);
    assert_eq!(app.notes[0].id, 0);
    assert_eq!(app.notes[0].title, "New Note");
    assert_eq!(app.notes[0].content, "");
    assert_eq!(app.next_id, 1);
}

#[test]
fn ids_strictly_increase_across_adds() {
    let mut app = fresh();
    for _ in 0..5 {
        app.add_note();
    }
    for i in 0..5 {
        assert_eq!(app.notes[i].id, i);
    }
    app.delete_note(2);
    app.add_note();
    assert_eq!(app.notes.last().unwrap().id, 5);
    for i in 0..app.notes.len() {
        for j in (i + 1)..app.notes.len() {
            assert!(app.notes[i].id < app.notes[j].id);
        }
    }
}

#[test]
fn delete_missing_id_changes_nothing() {
    let mut app = fresh();
    app.add_note();
    app.add_note();
    app.update_title(0, String::from("kept"));
    app.delete_note(99);
    assert_eq!(app.notes.len(), 2);
    assert_eq!(app.notes[0].id, 0);
    assert_eq!(app.notes[0].title, "kept");
    assert_eq!(app.notes[1].id, 1);
    assert_eq!(app.next_id, 2);
}

#[test]
fn delete_keeps_survivor_order() {
    let mut app = fresh();
    app.add_note();
    app.add_note();
    app.add_note();
    app.delete_note(1);
    assert_eq!(app.notes.len(), 2);
    assert_eq!(app.notes[0].id, 0);
    assert_eq!(app.notes[1].id, 2);
}

#[test]
fn update_missing_id_changes_nothing() {
    let mut app = fresh();
    app.add_note();
    app.update_title(7, String::from("nobody"));
    app.update_content(7, String::from("nothing"));
    assert_eq!(app.notes.len(), 1);
    assert_eq!(app.notes[0].title, "New Note");
    assert_eq!(app.notes[0].content, "");
    assert_eq!(app.next_id, 1);
}

#[test]
fn update_edits_only_the_matching_note() {
    let mut app = fresh();
    app.add_note();
    app.add_note();
    app.update_title(1, String::from("second"));
    app.update_content(1, String::from("body"));
    assert_eq!(app.notes[0].title, "New Note");
    assert_eq!(app.notes[0].content, "");
    assert_eq!(app.notes[1].title, "second");
    assert_eq!(app.notes[1].content, "body");
}

#[test]
fn scenario_add_update_delete() {
    let mut app = fresh();
    app.add_note();
    assert_eq!(app.notes[0].id, 0);
    assert_eq!(app.notes[0].title, "New Note");
    app.update_title(0, String::from("Groceries"));
    app.update_content(0, String::from("Milk, eggs"));
    assert_eq!(app.notes[0].title, "Groceries");
    assert_eq!(app.notes[0].content, "Milk, eggs");
    app.add_note();
    assert_eq!(app.notes[1].id, 1);
    app.delete_note(0);
    assert_eq!(app.notes.len(), 1);
    assert_eq!(app.notes[0].id, 1);
    assert_eq!(app.notes[0].title, "New Note");
    assert_eq!(app.notes[0].content, "");
}

#[test]
fn save_of_empty_store_is_empty_array() {
    let app = fresh();
    assert_eq!(app.save_to_string(), "[]");
}

#[test]
fn save_writes_compact_json_in_order() {
    let mut app = fresh();
    app.add_note();
    app.add_note();
    app.update_title(1, String::from("b"));
    app.update_content(1, String::from("c"));
    assert_eq!(
        app.save_to_string(),
        "[{\"id\":0,\"title\":\"New Note\",\"content\":\"\"},{\"id\":1,\"title\":\"b\",\"content\":\"c\"}]"
    );
}

#[test]
fn save_escapes_quotes_backslashes_and_controls() {
    let mut app = fresh();
    app.add_note();
    app.update_title(0, String::from("a\"b\\c\nd"));
    assert_eq!(
        app.save_to_string(),
        "[{\"id\":0,\"title\":\"a\\\"b\\\\c\\u000ad\",\"content\":\"\"}]"
    );
}

#[test]
fn round_trip_reproduces_notes_field_for_field() {
    let mut app = fresh();
    app.add_note();
    app.add_note();
    app.add_note();
    app.update_title(0, String::from("quotes \" and \\ slashes"));
    app.update_content(0, String::from("line\nbreak\ttab"));
    app.update_title(1, String::from("caf\u{e9} \u{1f600}"));
    app.update_content(1, String::from("control \u{1} char"));
    app.delete_note(2);
    let saved = app.save_to_string();
    let mut reloaded = fresh();
    reloaded.apply_loaded(Some(&saved));
    assert_eq!(reloaded.notes.len(), app.notes.len());
    for i in 0..app.notes.len() {
        assert_eq!(reloaded.notes[i].id, app.notes[i].id);
        assert_eq!(reloaded.notes[i].title, app.notes[i].title);
        assert_eq!(reloaded.notes[i].content, app.notes[i].content);
    }
    assert_eq!(reloaded.next_id, 2);
}

#[test]
fn load_resyncs_allocator_past_largest_id() {
    let text = "[{\"id\":2,\"title\":\"a\",\"content\":\"\"},\
                {\"id\":5,\"title\":\"b\",\"content\":\"\"},\
                {\"id\":3,\"title\":\"c\",\"content\":\"\"}]";
    let mut app = fresh();
    app.apply_loaded(Some(text));
    assert_eq!(app.notes.len(), 3);
    assert_eq!(app.next_id, 6);
    app.add_note();
    assert_eq!(app.notes.last().unwrap().id, 6);
}

#[test]
fn load_keeps_duplicate_ids_below_the_max() {
    let text = "[{\"id\":1,\"title\":\"x\",\"content\":\"\"},\
                {\"id\":1,\"title\":\"y\",\"content\":\"\"}]";
    let mut app = fresh();
    app.apply_loaded(Some(text));
    assert_eq!(app.notes.len(), 2);
    assert_eq!(app.notes[0].title, "x");
    assert_eq!(app.notes[1].title, "y");
    assert_eq!(app.next_id, 2);
}

#[test]
fn loading_nothing_yields_empty_store() {
    let mut app = fresh();
    app.apply_loaded(None);
    assert_eq!(app.notes.len(), 0);
    assert_eq!(app.next_id, 0);
}

#[test]
fn loading_malformed_text_yields_empty_store() {
    let samples = [
        "",
        "not json at all",
        "{",
        "[",
        "[{\"id\":0}]",
        "[{\"id\":0,\"title\":\"a\",\"content\":\"b\"}",
        "[{\"id\":0,\"title\":\"a\",\"content\":\"b\"}] trailing",
        "[{\"id\":-1,\"title\":\"a\",\"content\":\"b\"}]",
        "[{\"id\":99999999999999999999999999,\"title\":\"a\",\"content\":\"b\"}]",
        "[{\"title\":\"a\",\"id\":0,\"content\":\"b\"}]",
        "[{\"id\":0,\"title\":\"bad \u{1} raw control\",\"content\":\"\"}]",
    ];
    for text in samples.iter() {
        let mut app = fresh();
        app.apply_loaded(Some(text));
        assert_eq!(app.notes.len(), 0, "input was accepted: {}", text);
        assert_eq!(app.next_id, 0);
    }
}

#[test]
fn decoder_accepts_whitespace_and_escapes() {
    let text = " [ { \"id\" : 4 ,\n\t\"title\" : \"A\\u0041\\n\\t\\/\\\"\\\\\" , \"content\" : \"ok\" } ] ";
    let mut app = fresh();
    app.apply_loaded(Some(text));
    assert_eq!(app.notes.len(), 1);
    assert_eq!(app.notes[0].id, 4);
    assert_eq!(app.notes[0].title, "AA\n\t/\"\\");
    assert_eq!(app.notes[0].content, "ok");
    assert_eq!(app.next_id, 5);
}

#[test]
fn update_dispatches_save_after_each_mutation() {
    let mut app = fresh();
    let e1 = app.update(Message::AddNote);
    assert!(matches!(e1, Effect::Dispatch(Message::SaveNotes)));
    let e2 = app.update(Message::UpdateNoteTitle(0, String::from("t")));
    assert!(matches!(e2, Effect::Dispatch(Message::SaveNotes)));
    let e3 = app.update(Message::UpdateNoteContent(0, String::from("c")));
    assert!(matches!(e3, Effect::Dispatch(Message::SaveNotes)));
    let e4 = app.update(Message::DeleteNote(0));
    assert!(matches!(e4, Effect::Dispatch(Message::SaveNotes)));
    assert_eq!(app.notes.len(), 0);
    assert_eq!(app.next_id, 1);
}

#[test]
fn update_save_hands_back_the_encoded_text() {
    let mut app = fresh();
    app.add_note();
    let expected = app.save_to_string();
    let eff = app.update(Message::SaveNotes);
    match eff {
        Effect::Write(text) => assert_eq!(text, expected),
        _ => panic!("expected a write effect"),
    }
}

#[test]
fn update_load_asks_for_the_file() {
    let mut app = fresh();
    let eff = app.update(Message::LoadNotes);
    assert!(matches!(eff, Effect::Read));
}

#[test]
fn saved_text_is_json_serde_can_read() {
    let mut app = fresh();
    app.add_note();
    app.update_title(0, String::from("he said \"hi\"\n"));
    app.update_content(0, String::from("caf\u{e9}"));
    let saved = app.save_to_string();
    let v: serde_json::Value = serde_json::from_str(&saved).expect("valid JSON");
    let arr = v.as_array().expect("an array");
    assert_eq!(arr.len(), 1);
    assert_eq!(arr[0].get("id").unwrap().as_u64().unwrap(), 0);
    assert_eq!(arr[0].get("title").unwrap().as_str().unwrap(), "he said \"hi\"\n");
    assert_eq!(arr[0].get("content").unwrap().as_str().unwrap(), "caf\u{e9}");
}

#[test]
fn loading_empty_array_yields_empty_store() {
    let mut app = fresh();
    app.add_note();
    app.apply_loaded(Some("[]"));
    assert_eq!(app.notes.len(), 0);
    assert_eq!(app.next_id, 0);
}
