use deckpack::{Deck, Field, Flashcard, Side};

fn sample_deck() -> Deck {
    let mut deck = Deck::new(String::from("Biology"));
    let fields = vec![
        Field::new(String::from("front text")),
        Field::new(String::from("back text")),
    ];
    let sides = vec![Side::new(String::from("question")), Side::new(String::from("answer"))];
    deck.add_card(Flashcard::new(fields, sides, true));
    deck.add_card(Flashcard::new(
        vec![Field::new(String::from("lone field"))],
        Vec::new(),
        false,
    ));
    deck
}

#[test]
fn roundtrip_keeps_id_name_cards_and_attachment_metadata() {
    let mut deck = sample_deck();
    deck.new_attachment(String::from("jpg"), 2, vec![1u8, 2, 3, 4]);
    deck.new_attachment(String::from("mp3"), 1, vec![9u8, 8, 7]);

    let (file_name, bytes) = deck.save().unwrap();
    assert_eq!(file_name, "Biology.deck");
    assert!(!bytes.is_empty());

    let (loaded, files) = Deck::from_bytes(&bytes).unwrap();
    assert_eq!(loaded.id(), deck.id());
    assert_eq!(loaded.name(), deck.name());

    let old_cards = deck.cards();
    let new_cards = loaded.cards();
    assert_eq!(new_cards.len(), old_cards.len());
    for (old_card, new_card) in old_cards.iter().zip(new_cards.iter()) {
        assert_eq!(old_card.fields().len(), new_card.fields().len());
        for (of, nf) in old_card.fields().iter().zip(new_card.fields().iter()) {
            assert_eq!(of.data(), nf.data());
        }
        assert_eq!(old_card.sides().len(), new_card.sides().len());
        for (os, ns) in old_card.sides().iter().zip(new_card.sides().iter()) {
            assert_eq!(os.data(), ns.data());
        }
        assert_eq!(old_card.auto_rendering(), new_card.auto_rendering());
    }

    let old_fds = deck.attachments();
    let new_fds = loaded.attachments();
    assert_eq!(new_fds.len(), old_fds.len());
    for (old_fd, new_fd) in old_fds.iter().zip(new_fds.iter()) {
        assert_eq!(old_fd.id(), new_fd.id());
        assert_eq!(old_fd.ext(), new_fd.ext());
        assert_eq!(old_fd.rc(), new_fd.rc());
        assert!(!new_fd.is_opened());
    }

    assert_eq!(files.len(), 2);
}

#[test]
fn roundtrip_keeps_unicode_names_and_texts() {
    let mut deck = Deck::new(String::from("Caf\u{e9} \u{3042} deck"));
    deck.add_card(Flashcard::new(
        vec![Field::new(String::from("gr\u{fc}n \u{2713}"))],
        vec![Side::new(String::from("\u{65e5}\u{672c}\u{8a9e}"))],
        false,
    ));
    let (file_name, bytes) = deck.save().unwrap();
    assert_eq!(file_name, "Caf\u{e9}_\u{3042}_deck.deck");
    let (loaded, files) = Deck::from_bytes(&bytes).unwrap();
    assert_eq!(loaded.name(), deck.name());
    assert_eq!(
        loaded.cards()[0].fields()[0].data(),
        deck.cards()[0].fields()[0].data()
    );
    assert_eq!(
        loaded.cards()[0].sides()[0].data(),
        deck.cards()[0].sides()[0].data()
    );
    assert!(files.is_empty());
}

#[test]
fn snapshot_codec_inverts_exactly() {
    let deck = sample_deck();
    let blob = deckpack::codec::encode_deck(&deck);
    let decoded = deckpack::codec::decode_deck(&blob).unwrap();
    assert_eq!(decoded.id(), deck.id());
    assert_eq!(decoded.name(), deck.name());
    assert_eq!(decoded.cards().len(), deck.cards().len());
}

#[test]
fn snapshot_codec_rejects_garbage() {
    let junk = vec![0xffu8; 16];
    let err = deckpack::codec::decode_deck(&junk).unwrap_err();
    assert_eq!(err.kind(), deckpack::Kind::GettingDeckFromFile);
}

#[test]
fn snapshot_codec_rejects_trailing_bytes() {
    let deck = sample_deck();
    let mut blob = deckpack::codec::encode_deck(&deck);
    blob.push(0);
    assert!(deckpack::codec::decode_deck(&blob).is_err());
}

#[test]
fn archive_naming_replaces_spaces() {
    let deck = Deck::new(String::from("My Deck"));
    assert_eq!(deck.output_file_name(), "My_Deck.deck");
    let two = Deck::new(String::from("a b c"));
    assert_eq!(two.output_file_name(), "a_b_c.deck");
    let plain = Deck::new(String::from("plain"));
    assert_eq!(plain.output_file_name(), "plain.deck");
}

#[test]
fn scenario_biology_deck_with_one_jpeg_attachment() {
    let mut deck = Deck::new(String::from("Biology"));
    let payload = vec![0u8, 1, 2, 3, 4, 5, 6, 7, 8, 9];
    assert_eq!(payload.len(), 10);
    deck.new_attachment(String::from("jpg"), 2, payload);

    let (file_name, bytes) = deck.save().unwrap();
    assert_eq!(file_name, "Biology.deck");
    assert!(!bytes.is_empty());

    let (loaded, files) = Deck::from_bytes(&bytes).unwrap();
    assert_eq!(files.len(), 1);
    let (stored_name, stored_bytes) = &files[0];
    assert!(stored_name.starts_with("storage/"));
    assert!(stored_name.ends_with(".jpg"));
    assert_eq!(stored_bytes.len(), 10);

    assert_eq!(loaded.attachments().len(), 1);
    let fd = &loaded.attachments()[0];
    assert_eq!(fd.rc(), 2);
    assert!(!fd.is_opened());
    assert_eq!(fd.ext(), "jpg");
    assert_eq!(*stored_name, format!("storage/{}", fd.file_name()));
}
