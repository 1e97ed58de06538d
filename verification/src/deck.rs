//! The aggregate root: a deck of flash cards together with the storage of
//! binary attachments its cards reference.

use crate::archive::{
    archive_entries, archive_unpack, entries_ok, entries_v, last_deck, lemma_archive_entries_filter,
    lemma_archive_entries_ok, lemma_deck_name_ok, lemma_last_deck_push, lemma_non_deck_push,
    lemma_open_entries_push, non_deck, obv, open_entries, output_name, packer_append,
    packer_entries, packer_finish, packer_new, storage_entry_name, store_names_ok, tar_name_ok,
    targz_of, underscored,
};
use crate::codec::enc_deck;
use crate::error::{Error, Kind};
use crate::filedesc::{FdV, FileDesc};
use crate::flashcard::{CardV, Flashcard};
use crate::outside::fresh_id;
use vstd::prelude::*;
use vstd::string::{StrSliceExecFns, StringExecFns};

verus! {

/// The mathematical value of a [`Deck`]: identifier, display name, the card
/// sequence, and the attachment store.
#[verifier::ext_equal]
pub struct DeckV {
    pub id: Seq<char>,
    pub name: Seq<char>,
    pub cards: Seq<CardV>,
    pub storage: Seq<FdV>,
}

impl DeckV {
    /// The same deck with every attachment's bytes released.
    pub open spec fn closed(self) -> DeckV {
        DeckV { storage: self.storage.map_values(|f: FdV| f.closed()), ..self }
    }
}

/// Closing every attachment twice is the same as closing every attachment
/// once, and closing touches nothing but the attachments' in-memory bytes:
/// the identifier, name, cards, and every attachment's identifier,
/// extension and reference count stay as they were.
pub proof fn lemma_deck_close_idempotent(d: DeckV)
    ensures
        d.closed().closed() == d.closed(),
        d.closed().id == d.id,
        d.closed().name == d.name,
        d.closed().cards == d.cards,
        d.closed().storage.len() == d.storage.len(),
        forall|i: int|
            0 <= i < d.storage.len() ==> (#[trigger] d.closed().storage[i]).id
                == d.storage[i].id && d.closed().storage[i].ext == d.storage[i].ext
                && d.closed().storage[i].rc == d.storage[i].rc && !d.closed().storage[i].is_open(),
{
    assert(d.closed().closed().storage =~= d.closed().storage);
    assert(d.closed().closed() == d.closed());
}

/// Law (round trip): the archive a deck saves to determines the deck that
/// loading returns.  Its one file named `deck` holds the deck's metadata
/// snapshot, which does not depend on which attachments happen to be open;
/// its remaining files are exactly the open attachments' bytes; and the
/// closed counterpart that loading yields keeps the identifier, the name,
/// the card sequence, and every attachment's identifier, extension and
/// reference count.
pub proof fn lemma_round_trip(d: DeckV)
    ensures
        store_names_ok(d.storage) ==> entries_ok(archive_entries(d)),
        last_deck(archive_entries(d)) == Some(enc_deck(d)),
        non_deck(archive_entries(d)) == open_entries(d.storage),
        enc_deck(d.closed()) == enc_deck(d),
        d.closed().id == d.id,
        d.closed().name == d.name,
        d.closed().cards == d.cards,
        d.closed().storage.len() == d.storage.len(),
        forall|i: int|
            0 <= i < d.storage.len() ==> (#[trigger] d.closed().storage[i]).id
                == d.storage[i].id && d.closed().storage[i].ext == d.storage[i].ext
                && d.closed().storage[i].rc == d.storage[i].rc && !d.closed().storage[i].is_open(),
{
    if store_names_ok(d.storage) {
        lemma_archive_entries_ok(d);
    }
    lemma_archive_entries_filter(d);
    crate::codec::lemma_enc_deck_ignores_data(d);
    lemma_deck_close_idempotent(d);
}

/// A deck: a storage of flash cards and of the files linked to them.
#[derive(Debug)]
pub struct Deck {
    pub(crate) id: String,
    pub(crate) name: String,
    pub(crate) cards: Vec<Flashcard>,
    pub(crate) storage: Vec<FileDesc>,
}

impl View for Deck {
    type V = DeckV;

    closed spec fn view(&self) -> DeckV {
        DeckV {
            id: self.id@,
            name: self.name@,
            cards: self.cards@.map_values(|c: Flashcard| c@),
            storage: self.storage@.map_values(|f: FileDesc| f@),
        }
    }
}

impl Deck {
    /// Creates a new deck with a freshly generated identifier, the given
    /// display name, no cards and an empty attachment store.
    pub fn new(name: String) -> (r: Deck)
        ensures
            r@.name == name@,
            r@.cards.len() == 0,
            r@.storage.len() == 0,
            r@.id.len() == 36,
    {
        let r = Deck { id: fresh_id(), name, cards: Vec::new(), storage: Vec::new() };
        proof {
            assert(r@.cards =~= Seq::<CardV>::empty());
            assert(r@.storage =~= Seq::<FdV>::empty());
        }
        r
    }

    /// A deck rebuilt from its persisted parts.
    pub(crate) fn from_parts(
        id: String,
        name: String,
        cards: Vec<Flashcard>,
        storage: Vec<FileDesc>,
    ) -> (r: Deck)
        ensures
            r@ == (DeckV {
                id: id@,
                name: name@,
                cards: cards@.map_values(|c: Flashcard| c@),
                storage: storage@.map_values(|f: FileDesc| f@),
            }),
    {
        Deck { id, name, cards, storage }
    }

    /// The unique identifier of this deck.
    pub fn id(&self) -> (r: &String)
        ensures
            r@ == self@.id,
    {
        &self.id
    }

    /// The display name of this deck.
    pub fn name(&self) -> (r: &String)
        ensures
            r@ == self@.name,
    {
        &self.name
    }

    /// The flash cards stored in this deck, in order.
    pub fn cards(&self) -> (r: &Vec<Flashcard>)
        ensures
            r@.map_values(|c: Flashcard| c@) == self@.cards,
    {
        &self.cards
    }

    /// Appends a flash card at the end of the deck.
    pub fn add_card(&mut self, card: Flashcard)
        ensures
            final(self)@ == (DeckV { cards: old(self)@.cards.push(card@), ..old(self)@ }),
    {
        self.cards.push(card);
        proof {
            assert(final(self)@.cards =~= old(self)@.cards.push(card@));
        }
    }

    /// The attachment store of this deck, in order.
    pub fn attachments(&self) -> (r: &Vec<FileDesc>)
        ensures
            r@.map_values(|f: FileDesc| f@) == self@.storage,
    {
        &self.storage
    }

    /// Creates a new attachment in the open state from the given bytes and
    /// appends it to the store.  `ext` is the file-type tag of the source
    /// file and `rc` is how many flash cards reference the attachment.
    pub fn new_attachment(&mut self, ext: String, rc: u32, data: Vec<u8>)
        ensures
            final(self)@.id == old(self)@.id,
            final(self)@.name == old(self)@.name,
            final(self)@.cards == old(self)@.cards,
            final(self)@.storage.len() == old(self)@.storage.len() + 1,
            final(self)@.storage.take(old(self)@.storage.len() as int) == old(self)@.storage,
            final(self)@.storage.last().ext == ext@,
            final(self)@.storage.last().rc == rc,
            final(self)@.storage.last().data == Some(data@),
            final(self)@.storage.last().id.len() == 36,
            vstd::utf8::is_ascii_chars(final(self)@.storage.last().id),
            forall|i: int|
                0 <= i < final(self)@.storage.last().id.len()
                    ==> (#[trigger] final(self)@.storage.last().id[i]) != '.'
                    && final(self)@.storage.last().id[i] != '/'
                    && final(self)@.storage.last().id[i] != 0 as char,
    {
        let fd = FileDesc::new(ext, rc, data);
        self.storage.push(fd);
        proof {
            assert(final(self)@.storage =~= old(self)@.storage.push(fd@));
            assert(final(self)@.storage.take(old(self)@.storage.len() as int) =~= old(
                self,
            )@.storage);
        }
    }

    /// Closes the attachment at the given position.
    pub fn close_attachment(&mut self, i: usize)
        requires
            i < old(self)@.storage.len(),
        ensures
            final(self)@ == (DeckV {
                storage: old(self)@.storage.update(i as int, old(self)@.storage[i as int].closed()),
                ..old(self)@
            }),
    {
        self.storage[i].close();
        proof {
            assert(final(self)@.storage =~= old(self)@.storage.update(
                i as int,
                old(self)@.storage[i as int].closed(),
            ));
        }
    }

    /// Opens the attachment at the given position with the given bytes,
    /// replacing any previous in-memory bytes.  The caller reads the bytes
    /// from the attachment's file under a storage directory.
    pub fn open_attachment(&mut self, i: usize, data: Vec<u8>)
        requires
            i < old(self)@.storage.len(),
        ensures
            final(self)@ == (DeckV {
                storage: old(self)@.storage.update(
                    i as int,
                    (FdV { data: Some(data@), ..old(self)@.storage[i as int] }),
                ),
                ..old(self)@
            }),
    {
        let ghost target = FdV { data: Some(data@), ..old(self)@.storage[i as int] };
        self.storage[i].open(data);
        proof {
            assert(final(self)@.storage =~= old(self)@.storage.update(i as int, target));
        }
    }

    /// Close all opened program file descriptors, releasing every
    /// attachment's in-memory bytes.
    pub fn close_fds(&mut self)
        ensures
            final(self)@ == old(self)@.closed(),
    {
        let mut k: usize = 0;
        while k < self.storage.len()
            invariant
                k <= self.storage.len(),
                self.storage.len() == old(self)@.storage.len(),
                self.id@ == old(self)@.id,
                self.name@ == old(self)@.name,
                self.cards@.map_values(|c: Flashcard| c@) == old(self)@.cards,
                forall|j: int|
                    0 <= j < k ==> (#[trigger] self.storage@[j])@ == old(self)@.storage[j].closed(),
                forall|j: int|
                    k <= j < self.storage@.len() ==> (#[trigger] self.storage@[j])@ == old(
                        self,
                    )@.storage[j],
            decreases self.storage.len() - k,
        {
            self.storage[k].close();
            k = k + 1;
        }
        proof {
            assert(final(self)@.storage =~= old(self)@.closed().storage);
        }
    }
}

impl Deck {
    /// The name of the archive file this deck is saved under.
    pub fn output_file_name(&self) -> (r: String)
        ensures
            r@ == output_name(self@.name),
    {
        let n = self.name.as_str();
        let len = n.unicode_len();
        let mut out = String::new();
        let mut k: usize = 0;
        while k < len
            invariant
                k <= len,
                len == self@.name.len(),
                n@ == self@.name,
                out@ == underscored(self@.name.take(k as int)),
            decreases len - k,
        {
            let c = n.get_char(k);
            crate::outside::string_push(
                &mut out,
                if c == ' ' {
                    '_'
                } else {
                    c
                },
            );
            proof {
                assert(underscored(self@.name.take(k + 1)) =~= underscored(
                    self@.name.take(k as int),
                ).push(underscored(self@.name)[k as int]));
                assert(out@ =~= underscored(self@.name.take(k + 1)));
            }
            k = k + 1;
        }
        proof {
            assert(self@.name.take(len as int) =~= self@.name);
        }
        out.append(".deck");
        out
    }

    /// Builds this deck's portable archive: the bytes of the open
    /// attachments' files under the storage path, the metadata snapshot
    /// under the fixed name `deck`, all bundled into one compressed
    /// container, together with the output file name derived from the
    /// display name.  The caller writes the bytes under that name in a
    /// directory of its choosing.
    pub fn save(&self) -> (r: Result<(String, Vec<u8>), Error>)
        ensures
            store_names_ok(self@.storage) ==> r is Ok,
            r matches Ok(p) ==> p.0@ == output_name(self@.name) && (store_names_ok(self@.storage)
                ==> p.1@ == targz_of(archive_entries(self@))),
            r matches Err(e) ==> (e.spec_kind() == Kind::SavingDeck || e.spec_kind()
                == Kind::SavingFileDesc),
    {
        let mut packer = packer_new();
        let mut k: usize = 0;
        proof {
            assert(open_entries(self@.storage.take(0)) =~= Seq::<(Seq<char>, Seq<u8>)>::empty());
        }
        while k < self.storage.len()
            invariant
                k <= self.storage.len(),
                self.storage@.len() == self@.storage.len(),
                store_names_ok(self@.storage) ==> packer_entries(packer) == open_entries(
                    self@.storage.take(k as int),
                ),
            decreases self.storage.len() - k,
        {
            let fd = &self.storage[k];
            proof {
                assert(fd@ == self@.storage[k as int]);
                assert(self@.storage.take(k + 1) =~= self@.storage.take(k as int).push(
                    self@.storage[k as int],
                ));
                lemma_open_entries_push(self@.storage.take(k as int), self@.storage[k as int]);
            }
            match fd.data() {
                Some(data) => {
                    let mut name = String::from_str("storage/");
                    let file = fd.file_name();
                    name.append(file.as_str());
                    proof {
                        assert(name@ == storage_entry_name(self@.storage[k as int]));
                    }
                    match packer_append(&mut packer, &name, data) {
                        Ok(()) => {
                            proof {
                                if store_names_ok(self@.storage) {
                                    assert(self@.storage[k as int].is_open());
                                    assert(tar_name_ok(name@));
                                }
                            }
                        },
                        Err(msg) => {
                            proof {
                                assert(!tar_name_ok(name@));
                                assert(!store_names_ok(self@.storage)) by {
                                    if store_names_ok(self@.storage) {
                                        assert(self@.storage[k as int].is_open());
                                    }
                                };
                            }
                            return Err(Error::new(Kind::SavingFileDesc, msg));
                        },
                    }
                },
                None => {},
            }
            k = k + 1;
        }
        proof {
            assert(self@.storage.take(self.storage@.len() as int) =~= self@.storage);
        }
        let blob = crate::codec::encode_deck(self);
        let blob_name = String::from_str("deck");
        proof {
            lemma_deck_name_ok();
        }
        match packer_append(&mut packer, &blob_name, &blob) {
            Ok(()) => {},
            Err(msg) => {
                proof {
                    assert(false);
                }
                return Err(Error::new(Kind::SavingDeck, msg));
            },
        }
        proof {
            if store_names_ok(self@.storage) {
                assert(packer_entries(packer) =~= archive_entries(self@));
            }
        }
        match packer_finish(packer) {
            Ok(bytes) => Ok((self.output_file_name(), bytes)),
            Err(msg) => {
                proof {
                    assert(false);
                }
                Err(Error::new(Kind::SavingDeck, msg))
            },
        }
    }

    /// Reads a deck back from the bytes of an archive file.  On success the
    /// result is the deck with every attachment closed, together with the
    /// attachments' files (archive path and bytes) for the caller to place
    /// under its storage directory.  Inverts [`Deck::save`]: an archive
    /// saved from any deck loads back to that deck's closed counterpart
    /// and to exactly its open attachments' files.
    pub fn from_bytes(archive: &Vec<u8>) -> (r: Result<(Deck, Vec<(String, Vec<u8>)>), Error>)
        ensures
            forall|d: DeckV|
                (archive@ == targz_of(#[trigger] archive_entries(d)) && entries_ok(
                    archive_entries(d),
                )) ==> (r matches Ok(p) && p.0@ == d.closed() && entries_v(p.1@) == open_entries(
                    d.storage,
                )),
            r matches Ok(p) ==> p.0@ == p.0@.closed(),
            r matches Err(e) ==> e.spec_kind() == Kind::GettingDeckFromFile,
    {
        let mut entries = match archive_unpack(archive) {
            Ok(v) => v,
            Err(msg) => {
                proof {
                    assert forall|d: DeckV|
                        !(archive@ == targz_of(#[trigger] archive_entries(d)) && entries_ok(
                            archive_entries(d),
                        )) by {
                        if archive@ == targz_of(archive_entries(d)) && entries_ok(
                            archive_entries(d),
                        ) {
                            let es = archive_entries(d);
                            assert(archive@ == targz_of(es) && entries_ok(es));
                        }
                    }
                }
                return Err(Error::new(Kind::GettingDeckFromFile, msg));
            },
        };
        let ghost orig = entries_v(entries@);
        let deck_name = String::from_str("deck");
        let mut files: Vec<(String, Vec<u8>)> = Vec::new();
        let mut blob: Option<Vec<u8>> = None;
        let total = entries.len();
        let mut p: usize = 0;
        proof {
            assert(entries_v(files@) =~= non_deck(orig.take(0)));
            assert(orig.take(0) =~= Seq::<(Seq<char>, Seq<u8>)>::empty());
            assert(entries_v(entries@) =~= orig.skip(0));
        }
        while entries.len() > 0
            invariant
                p <= total,
                total == orig.len(),
                p + entries@.len() == orig.len(),
                entries_v(entries@) == orig.skip(p as int),
                entries_v(files@) == non_deck(orig.take(p as int)),
                obv(blob) == last_deck(orig.take(p as int)),
                deck_name@ == "deck"@,
            decreases entries@.len(),
        {
            let ghost pre_files = entries_v(files@);
            let ghost pre_entries = entries@;
            let e = entries.remove(0);
            proof {
                assert(entries_v(pre_entries)[0] == (pre_entries[0].0@, pre_entries[0].1@));
                assert(orig[p as int] == (e.0@, e.1@));
                assert(entries@ =~= pre_entries.drop_first());
                assert(entries_v(entries@) =~= entries_v(pre_entries).drop_first());
                assert(entries_v(entries@) =~= orig.skip(p + 1));
                assert(orig.take(p + 1) =~= orig.take(p as int).push(orig[p as int]));
                lemma_non_deck_push(orig.take(p as int), orig[p as int]);
                lemma_last_deck_push(orig.take(p as int), orig[p as int]);
            }
            if e.0 == deck_name {
                blob = Some(e.1);
            } else {
                files.push(e);
                proof {
                    assert(entries_v(files@) =~= pre_files + seq![orig[p as int]]);
                }
            }
            p = p + 1;
        }
        proof {
            assert(orig.take(p as int) =~= orig);
        }
        match blob {
            Some(b) => {
                match crate::codec::decode_deck(&b) {
                    Ok(deck) => {
                        proof {
                            assert forall|d: DeckV|
                                (archive@ == targz_of(#[trigger] archive_entries(d)) && entries_ok(
                                    archive_entries(d),
                                )) implies deck@ == d.closed() && entries_v(files@) == open_entries(
                                d.storage,
                            ) by {
                                assert(orig == archive_entries(d));
                                lemma_archive_entries_filter(d);
                                assert(b@ == enc_deck(d));
                            }
                        }
                        Ok((deck, files))
                    },
                    Err(err) => {
                        proof {
                            assert forall|d: DeckV|
                                !(archive@ == targz_of(#[trigger] archive_entries(d)) && entries_ok(
                                    archive_entries(d),
                                )) by {
                                if archive@ == targz_of(archive_entries(d)) && entries_ok(
                                    archive_entries(d),
                                ) {
                                    assert(orig == archive_entries(d));
                                    lemma_archive_entries_filter(d);
                                    assert(b@ == enc_deck(d));
                                }
                            }
                        }
                        Err(err)
                    },
                }
            },
            None => {
                proof {
                    assert forall|d: DeckV|
                        !(archive@ == targz_of(#[trigger] archive_entries(d)) && entries_ok(
                            archive_entries(d),
                        )) by {
                        if archive@ == targz_of(archive_entries(d)) && entries_ok(
                            archive_entries(d),
                        ) {
                            assert(orig == archive_entries(d));
                            lemma_archive_entries_filter(d);
                        }
                    }
                }
                Err(
                    Error::new(
                        Kind::GettingDeckFromFile,
                        String::from_str("archive holds no deck snapshot"),
                    ),
                )
            },
        }
    }
}

} // verus!
