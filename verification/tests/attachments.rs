use deckpack::{Deck, FileDesc, Kind};

#[test]
fn close_is_idempotent() {
    let mut fd = FileDesc::new(String::from("png"), 1, vec![1u8, 2, 3]);
    assert!(fd.is_opened());
    fd.close();
    assert!(!fd.is_opened());
    fd.close();
    assert!(!fd.is_opened());
    assert_eq!(fd.ext(), "png");
    assert_eq!(fd.rc(), 1);
}

#[test]
fn open_after_close_restores_saved_bytes() {
    let original = vec![42u8, 43, 44, 45];
    let mut deck = Deck::new(String::from("notes"));
    deck.new_attachment(String::from("bin"), 1, original.clone());

    let (_, bytes) = deck.save().unwrap();
    let (mut loaded, files) = Deck::from_bytes(&bytes).unwrap();
    assert!(!loaded.attachments()[0].is_opened());

    // The caller re-opens the attachment from its extracted file, exactly
    // as the load path leaves it on disk.
    assert_eq!(files.len(), 1);
    loaded.open_attachment(0, files[0].1.clone());
    assert!(loaded.attachments()[0].is_opened());
    assert_eq!(loaded.attachments()[0].data().as_ref().unwrap(), &original);
}

#[test]
fn closed_attachment_leaves_no_file_in_the_archive() {
    let mut deck = Deck::new(String::from("mixed"));
    deck.new_attachment(String::from("jpg"), 1, vec![1u8; 5]);
    deck.new_attachment(String::from("wav"), 1, vec![2u8; 6]);
    deck.close_attachment(0);

    let closed_id = deck.attachments()[0].id().clone();
    let (_, bytes) = deck.save().unwrap();
    let (loaded, files) = Deck::from_bytes(&bytes).unwrap();

    // Only the open attachment's file made it into the archive.
    assert_eq!(files.len(), 1);
    assert!(files[0].0.ends_with(".wav"));
    assert!(!files[0].0.contains(closed_id.as_str()));

    // The reloaded deck still lists both entries, both closed: the closed
    // one's bytes are gone until a source is re-supplied externally.
    assert_eq!(loaded.attachments().len(), 2);
    assert!(!loaded.attachments()[0].is_opened());
    assert!(!loaded.attachments()[1].is_opened());
}

#[test]
fn close_fds_closes_every_attachment() {
    let mut deck = Deck::new(String::from("bulk"));
    deck.new_attachment(String::from("a"), 1, vec![1u8]);
    deck.new_attachment(String::from("b"), 2, vec![2u8, 2]);
    deck.new_attachment(String::from("c"), 3, vec![3u8, 3, 3]);
    deck.close_fds();
    for fd in deck.attachments().iter() {
        assert!(!fd.is_opened());
    }
    // A second pass changes nothing.
    deck.close_fds();
    for fd in deck.attachments().iter() {
        assert!(!fd.is_opened());
    }
}

#[test]
fn attachments_created_together_get_distinct_identifiers() {
    let mut deck = Deck::new(String::from("twins"));
    deck.new_attachment(String::from("jpg"), 1, vec![7u8; 4]);
    deck.new_attachment(String::from("jpg"), 1, vec![7u8; 4]);
    let first = deck.attachments()[0].id().clone();
    let second = deck.attachments()[1].id().clone();
    assert_ne!(first, second);
    assert_eq!(first.chars().count(), 36);
    assert_eq!(second.chars().count(), 36);
}

#[test]
fn file_name_joins_id_and_extension() {
    let with_ext = FileDesc::new(String::from("jpg"), 1, vec![0u8]);
    assert_eq!(with_ext.file_name(), format!("{}.jpg", with_ext.id()));
    let without_ext = FileDesc::new(String::new(), 1, vec![0u8]);
    assert_eq!(without_ext.file_name(), *without_ext.id());
}

#[test]
fn loading_garbage_bytes_reports_the_loading_kind() {
    let junk = vec![5u8; 64];
    let err = Deck::from_bytes(&junk).unwrap_err();
    assert_eq!(err.kind(), Kind::GettingDeckFromFile);
}
