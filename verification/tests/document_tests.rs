use collaborative_editor::document::{DocumentState, Edit, ErrorKind};

#[test]
fn test_apply_edit_insert_success() {
    let mut doc = DocumentState::new();
    let edit = Edit {
        position: 0,
        insert: Some("Hello".to_string()),
        delete: None,
        version: 0,
    };

    let result = doc.apply_edit(&edit);
    assert!(result.is_ok());
    assert_eq!(doc.content, "Hello");
    assert_eq!(doc.version, 1);
}

#[test]
fn test_apply_edit_delete_success() {
    let mut doc = DocumentState::new();
    doc.content = "Hello, World!".to_string();
    doc.version = 0;

    let edit = Edit {
        position: 6,
        insert: None,
        delete: Some(7),
        version: 0,
    };

    let result = doc.apply_edit(&edit);
    assert!(result.is_ok());
    assert_eq!(doc.content, "Hello,");
    assert_eq!(doc.version, 1);
}

#[test]
fn test_apply_edit_version_mismatch() {
    let mut doc = DocumentState::new();
    doc.content = "Hello".to_string();
    doc.version = 1;

    let edit = Edit {
        position: 5,
        insert: Some(", World!".to_string()),
        delete: None,
        version: 0,
    };

    let result = doc.apply_edit(&edit);
    assert!(result.is_err());
    assert_eq!(result.unwrap_err().message(), "Version mismatch");
    assert_eq!(doc.content, "Hello");
    assert_eq!(doc.version, 1);
}

#[test]
fn test_apply_edit_invalid_insert_position() {
    let mut doc = DocumentState::new();
    doc.content = "Hello".to_string();
    doc.version = 0;

    let edit = Edit {
        position: 10,
        insert: Some(", World!".to_string()),
        delete: None,
        version: 0,
    };

    let result = doc.apply_edit(&edit);
    assert!(result.is_err());
    assert_eq!(
        result.unwrap_err().message(),
        "Insert position is not a valid UTF-8 boundary."
    );
    assert_eq!(doc.content, "Hello");
    assert_eq!(doc.version, 0);
}

#[test]
fn test_apply_edit_invalid_delete_range() {
    let mut doc = DocumentState::new();
    doc.content = "Hello, World!".to_string();
    doc.version = 0;

    let edit = Edit {
        position: 7,
        insert: None,
        delete: Some(20),
        version: 0,
    };

    let result = doc.apply_edit(&edit);
    assert!(result.is_err());
    assert_eq!(
        result.unwrap_err().message(),
        "Delete range is not valid UTF-8 boundaries."
    );
    assert_eq!(doc.content, "Hello, World!");
    assert_eq!(doc.version, 0);
}

#[test]
fn test_apply_edit_consecutive_edits() {
    let mut doc = DocumentState::new();
    let edit1 = Edit {
        position: 0,
        insert: Some("Hello".to_string()),
        delete: None,
        version: 0,
    };
    let edit2 = Edit {
        position: 5,
        insert: Some(", World!".to_string()),
        delete: None,
        version: 1,
    };

    assert!(doc.apply_edit(&edit1).is_ok());
    assert_eq!(doc.content, "Hello");
    assert_eq!(doc.version, 1);

    assert!(doc.apply_edit(&edit2).is_ok());
    assert_eq!(doc.content, "Hello, World!");
    assert_eq!(doc.version, 2);
}

fn document(content: &str, version: usize) -> DocumentState {
    let mut doc = DocumentState::new();
    doc.content = content.to_string();
    doc.version = version;
    doc
}

fn insert(position: usize, text: &str, version: usize) -> Edit {
    Edit { position, insert: Some(text.to_string()), delete: None, version }
}

fn delete(position: usize, count: usize, version: usize) -> Edit {
    Edit { position, insert: None, delete: Some(count), version }
}

#[test]
fn new_document_is_empty_at_version_zero() {
    let doc = DocumentState::new();
    assert_eq!(doc.content, "");
    assert_eq!(doc.version, 0);
    let other = DocumentState::default();
    assert_eq!(other.content, "");
    assert_eq!(other.version, 0);
}

#[test]
fn error_kinds_have_their_messages() {
    assert_eq!(ErrorKind::VersionMismatch.message(), "Version mismatch");
    assert_eq!(
        ErrorKind::InvalidInsertPosition.message(),
        "Insert position is not a valid UTF-8 boundary."
    );
    assert_eq!(
        ErrorKind::InvalidDeleteRange.message(),
        "Delete range is not valid UTF-8 boundaries."
    );
}

#[test]
fn insert_in_the_middle_moves_the_rest_back() {
    let mut doc = document("Held", 3);
    assert_eq!(doc.apply_edit(&insert(3, "lo, Worl", 3)), Ok(()));
    assert_eq!(doc.content, "Hello, World");
    assert_eq!(doc.version, 4);
}

#[test]
fn insert_at_the_end_appends() {
    let mut doc = document("Hello", 0);
    assert_eq!(doc.apply_edit(&insert(5, "!", 0)), Ok(()));
    assert_eq!(doc.content, "Hello!");
}

#[test]
fn insert_of_nothing_still_counts() {
    let mut doc = document("Hello", 7);
    assert_eq!(doc.apply_edit(&insert(2, "", 7)), Ok(()));
    assert_eq!(doc.content, "Hello");
    assert_eq!(doc.version, 8);
}

#[test]
fn insert_just_past_the_end_is_rejected() {
    let mut doc = document("Hello", 0);
    assert_eq!(doc.apply_edit(&insert(6, "!", 0)), Err(ErrorKind::InvalidInsertPosition));
    assert_eq!(doc.content, "Hello");
    assert_eq!(doc.version, 0);
}

#[test]
fn insert_inside_a_character_is_rejected() {
    // 'é' takes bytes 1 and 2, '€' bytes 3 to 5.
    let mut doc = document("hé€!", 0);
    for position in [2usize, 4, 5] {
        assert_eq!(
            doc.apply_edit(&insert(position, "x", 0)),
            Err(ErrorKind::InvalidInsertPosition)
        );
        assert_eq!(doc.content, "hé€!");
        assert_eq!(doc.version, 0);
    }
    assert_eq!(doc.apply_edit(&insert(3, "x", 0)), Ok(()));
    assert_eq!(doc.content, "héx€!");
    assert_eq!(doc.version, 1);
}

#[test]
fn inserted_text_may_hold_wide_characters() {
    let mut doc = document("ab", 0);
    assert_eq!(doc.apply_edit(&insert(1, "é€😀", 0)), Ok(()));
    assert_eq!(doc.content, "aé€😀b");
    assert_eq!(doc.content.len(), 11);
}

#[test]
fn delete_takes_whole_characters_out() {
    let mut doc = document("hé€!", 0);
    assert_eq!(doc.apply_edit(&delete(1, 5, 0)), Ok(()));
    assert_eq!(doc.content, "h!");
    assert_eq!(doc.version, 1);
}

#[test]
fn delete_that_cuts_a_character_is_rejected() {
    let mut doc = document("hé€!", 0);
    // The start splits 'é'.
    assert_eq!(doc.apply_edit(&delete(2, 1, 0)), Err(ErrorKind::InvalidDeleteRange));
    // The end splits '€'.
    assert_eq!(doc.apply_edit(&delete(1, 3, 0)), Err(ErrorKind::InvalidDeleteRange));
    assert_eq!(doc.apply_edit(&delete(3, 2, 0)), Err(ErrorKind::InvalidDeleteRange));
    assert_eq!(doc.content, "hé€!");
    assert_eq!(doc.version, 0);
}

#[test]
fn delete_of_nothing_still_counts() {
    let mut doc = document("Hello", 0);
    assert_eq!(doc.apply_edit(&delete(5, 0, 0)), Ok(()));
    assert_eq!(doc.content, "Hello");
    assert_eq!(doc.version, 1);
}

#[test]
fn delete_up_to_the_end_is_accepted_and_one_more_is_not() {
    let mut doc = document("Hello", 0);
    assert_eq!(doc.apply_edit(&delete(2, 4, 0)), Err(ErrorKind::InvalidDeleteRange));
    assert_eq!(doc.apply_edit(&delete(2, 3, 0)), Ok(()));
    assert_eq!(doc.content, "He");
}

#[test]
fn delete_whose_end_does_not_fit_the_word_is_rejected() {
    let mut doc = document("Hello", 0);
    assert_eq!(doc.apply_edit(&delete(1, usize::MAX, 0)), Err(ErrorKind::InvalidDeleteRange));
    assert_eq!(doc.apply_edit(&delete(usize::MAX, 1, 0)), Err(ErrorKind::InvalidDeleteRange));
    assert_eq!(doc.apply_edit(&delete(usize::MAX, usize::MAX, 0)), Err(ErrorKind::InvalidDeleteRange));
    assert_eq!(doc.content, "Hello");
    assert_eq!(doc.version, 0);
}

#[test]
fn version_is_looked_at_before_the_position() {
    let mut doc = document("Hello", 2);
    assert_eq!(doc.apply_edit(&insert(99, "x", 1)), Err(ErrorKind::VersionMismatch));
    assert_eq!(doc.apply_edit(&delete(99, 99, 3)), Err(ErrorKind::VersionMismatch));
    assert_eq!(doc.content, "Hello");
    assert_eq!(doc.version, 2);
}

#[test]
fn rejected_edit_can_be_offered_again_with_the_same_outcome() {
    let mut doc = document("Hello", 1);
    let stale = insert(5, ", World!", 0);
    for _ in 0..3 {
        assert_eq!(doc.apply_edit(&stale), Err(ErrorKind::VersionMismatch));
        assert_eq!(doc.content, "Hello");
        assert_eq!(doc.version, 1);
    }
}

#[test]
fn insert_counts_where_both_are_given() {
    let mut doc = document("Hello", 0);
    let both = Edit { position: 5, insert: Some("!".to_string()), delete: Some(99), version: 0 };
    assert_eq!(doc.apply_edit(&both), Ok(()));
    assert_eq!(doc.content, "Hello!");
    assert_eq!(doc.version, 1);
}

#[test]
fn edit_with_neither_only_moves_the_version() {
    let mut doc = document("Hello", 4);
    let neither = Edit { position: 99, insert: None, delete: None, version: 4 };
    assert_eq!(doc.apply_edit(&neither), Ok(()));
    assert_eq!(doc.content, "Hello");
    assert_eq!(doc.version, 5);
}

#[test]
fn run_of_accepted_edits_composes_from_left_to_right() {
    let mut doc = document("", 10);
    let edits = vec![
        insert(0, "Hello", 10),
        insert(5, " World", 11),
        delete(0, 1, 12),
        insert(0, "J", 13),
        delete(5, 6, 14),
        insert(5, "€", 15),
    ];
    let texts = ["Hello", "Hello World", "ello World", "Jello World", "Jello", "Jello€"];
    for (n, edit) in edits.iter().enumerate() {
        assert_eq!(doc.apply_edit(edit), Ok(()));
        assert_eq!(doc.content, texts[n]);
        assert_eq!(doc.version, 10 + n + 1);
    }
    assert_eq!(doc.version, 10 + edits.len());
}

#[test]
fn version_counts_the_accepted_edits_only() {
    let mut doc = DocumentState::new();
    let offered = vec![
        insert(0, "ab", 0),
        insert(0, "x", 0),
        insert(9, "x", 1),
        delete(0, 1, 1),
        delete(0, 5, 2),
        insert(1, "c", 2),
    ];
    let mut accepted = 0;
    for edit in offered.iter() {
        if doc.apply_edit(edit).is_ok() {
            accepted += 1;
        }
    }
    assert_eq!(accepted, 3);
    assert_eq!(doc.version, 3);
    assert_eq!(doc.content, "bc");
}

#[test]
fn of_two_edits_against_one_version_only_the_first_is_applied() {
    let first = insert(0, "from A", 0);
    let second = insert(0, "from B", 0);

    let mut doc = DocumentState::new();
    assert_eq!(doc.apply_edit(&first), Ok(()));
    assert_eq!(doc.apply_edit(&second), Err(ErrorKind::VersionMismatch));
    assert_eq!(doc.content, "from A");
    assert_eq!(doc.version, 1);

    let mut doc = DocumentState::new();
    assert_eq!(doc.apply_edit(&second), Ok(()));
    assert_eq!(doc.apply_edit(&first), Err(ErrorKind::VersionMismatch));
    assert_eq!(doc.content, "from B");
    assert_eq!(doc.version, 1);
}
