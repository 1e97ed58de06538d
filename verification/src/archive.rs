//! The archive codec: building a deck's single portable archive file and
//! reading it back.
//!
//! An archive is a gzip-compressed tar container with a fixed layout: one
//! file `storage/<id>.<ext>` per attachment that is open at save time, and
//! exactly one file `deck` holding the binary metadata snapshot of
//! [`crate::codec`].  Everything is built and read in memory; the caller
//! writes the finished bytes to disk and hands the bytes of an archive file
//! in.

use crate::codec::enc_deck;
use crate::deck::DeckV;
use crate::filedesc::FdV;
use vstd::prelude::*;
use vstd::utf8::{encode_utf8, is_ascii_chars, is_ascii_chars_encode_utf8};

verus! {

// ------------------------------------------------------------------
// Trusted declarations around tar and flate2.
// ------------------------------------------------------------------
/// The in-memory packer: a tar builder writing through a gzip encoder into
/// a byte buffer.  Held opaquely, because Verus does not accept the
/// builder's `Write` bound in a type declaration; everything known about a
/// packer is stated by [`packer_entries`] and the functions below.
#[verifier::external_body]
pub struct Packer {
    inner: tar::Builder<flate2::write::GzEncoder<Vec<u8>>>,
}

/// The entries a packer holds so far: for each appended file its name and
/// its bytes, in order.
pub uninterp spec fn packer_entries(b: Packer) -> Seq<(Seq<char>, Seq<u8>)>;

/// The bytes of the finished gzip-compressed tar archive holding the given
/// entries.  For the crate versions this library is built against, both the
/// tar layout and the compressed stream are functions of the entries alone.
pub uninterp spec fn targz_of(entries: Seq<(Seq<char>, Seq<u8>)>) -> Seq<u8>;

/// Relies on `tar::Builder::new` over `flate2::write::GzEncoder::new` with
/// an in-memory buffer: a newly created archive builder holds no entries.
#[verifier::external_body]
pub(crate) fn packer_new() -> (b: Packer)
    ensures
        packer_entries(b) == Seq::<(Seq<char>, Seq<u8>)>::empty(),
{
    Packer {
        inner: tar::Builder::new(
            flate2::write::GzEncoder::new(Vec::new(), flate2::Compression::default()),
        ),
    }
}

/// Relies on `tar::Builder::append_data`: its path writer stores a name
/// with no `.`, `..` or empty component and no trailing separator exactly
/// as given, and rejects only NUL, `..`, absolute and empty paths — so on
/// a [`tar_name_ok`] name the append succeeds and appends one regular
/// file, name and bytes unchanged, at the end of the entries.  On other
/// names the writer may normalize, so nothing is claimed of them.
#[verifier::external_body]
pub(crate) fn packer_append(b: &mut Packer, name: &String, data: &Vec<u8>) -> (r: Result<(), String>)
    ensures
        tar_name_ok(name@) ==> r is Ok,
        r is Ok && tar_name_ok(name@) ==> packer_entries(*final(b)) == packer_entries(
            *old(b),
        ).push((name@, data@)),
{
    let mut header = tar::Header::new_gnu();
    header.set_size(data.len() as u64);
    header.set_mode(0o644);
    match b.inner.append_data(&mut header, name.as_str(), data.as_slice()) {
        Ok(()) => Ok(()),
        Err(e) => Err(e.to_string()),
    }
}

/// Relies on `tar::Builder::into_inner` and `GzEncoder::finish`: both only
/// forward errors of the underlying writer, and writing into an in-memory
/// byte buffer cannot fail, so finishing always succeeds and yields the
/// complete compressed archive of the entries appended so far.
#[verifier::external_body]
pub(crate) fn packer_finish(b: Packer) -> (r: Result<Vec<u8>, String>)
    ensures
        r is Ok,
        r matches Ok(v) ==> v@ == targz_of(packer_entries(b)),
{
    match b.inner.into_inner() {
        Ok(encoder) => match encoder.finish() {
            Ok(bytes) => Ok(bytes),
            Err(e) => Err(e.to_string()),
        },
        Err(e) => Err(e.to_string()),
    }
}

/// The values of a sequence of named files: each name's characters with
/// each file's bytes.
pub open spec fn entries_v(v: Seq<(String, Vec<u8>)>) -> Seq<(Seq<char>, Seq<u8>)> {
    v.map_values(|p: (String, Vec<u8>)| (p.0@, p.1@))
}

/// Whether position `k` starts a path component of `n`.
pub open spec fn component_start(n: Seq<char>, k: int) -> bool {
    k == 0 || n[k - 1] == '/'
}

/// An entry name the tar format stores exactly as given: nonempty, short
/// enough for the header's path field, free of NUL, with no trailing
/// separator and no component that is empty or begins with a dot.  Outside
/// this set tar's path writer normalizes (it drops `.` and empty
/// components and trailing separators) or refuses the name.
pub open spec fn tar_name_ok(n: Seq<char>) -> bool {
    &&& 0 < n.len()
    &&& encode_utf8(n).len() < 100
    &&& n[n.len() - 1] != '/'
    &&& (forall|k: int| 0 <= k < n.len() ==> n[k] != 0 as char)
    &&& (forall|k: int|
        0 <= k < n.len() && component_start(n, k) ==> #[trigger] n[k] != '/' && n[k] != '.')
}

/// Every entry of `es` has a name the tar format stores exactly as given.
pub open spec fn entries_ok(es: Seq<(Seq<char>, Seq<u8>)>) -> bool {
    forall|j: int| 0 <= j < es.len() ==> tar_name_ok((#[trigger] es[j]).0)
}

/// Relies on `tar::Archive::entries` over `flate2::read::GzDecoder`, with
/// `tar::Entry::path` and `std::io::Read::read_to_end`: reading back an
/// archive that the packer produced yields exactly the entries that were
/// appended, in order, as long as every entry name is one the format
/// stores exactly as given.
#[verifier::external_body]
pub(crate) fn archive_unpack(archive: &Vec<u8>) -> (r: Result<Vec<(String, Vec<u8>)>, String>)
    ensures
        r matches Ok(v) ==> (forall|es: Seq<(Seq<char>, Seq<u8>)>|
            archive@ == #[trigger] targz_of(es) && entries_ok(es) ==> entries_v(v@) == es),
        (exists|es: Seq<(Seq<char>, Seq<u8>)>|
            archive@ == #[trigger] targz_of(es) && entries_ok(es)) ==> r is Ok,
{
    let mut ar = tar::Archive::new(flate2::read::GzDecoder::new(archive.as_slice()));
    let mut out: Vec<(String, Vec<u8>)> = Vec::new();
    for entry in ar.entries().map_err(|e| e.to_string())? {
        let mut e = entry.map_err(|e| e.to_string())?;
        let name = e.path().map_err(|e| e.to_string())?.to_string_lossy().into_owned();
        let mut data: Vec<u8> = Vec::new();
        std::io::Read::read_to_end(&mut e, &mut data).map_err(|e| e.to_string())?;
        out.push((name, data));
    }
    Ok(out)
}

// ------------------------------------------------------------------
// The archive's layout, as a function of the deck.
// ------------------------------------------------------------------
/// The name of an attachment's file inside the archive.
pub open spec fn storage_entry_name(f: FdV) -> Seq<char> {
    "storage/"@ + f.file_name()
}

/// The attachment entries of the archive: one per open descriptor, in
/// store order; a closed descriptor contributes nothing.
pub open spec fn open_entries(fs: Seq<FdV>) -> Seq<(Seq<char>, Seq<u8>)>
    decreases fs.len(),
{
    if fs.len() == 0 {
        Seq::empty()
    } else {
        (if fs.first().data is Some {
            seq![(storage_entry_name(fs.first()), fs.first().data->0)]
        } else {
            Seq::empty()
        }) + open_entries(fs.drop_first())
    }
}

/// Everything a saved archive holds: the open attachments' files, then the
/// metadata snapshot under the fixed name `deck`.
pub open spec fn archive_entries(d: DeckV) -> Seq<(Seq<char>, Seq<u8>)> {
    open_entries(d.storage) + seq![("deck"@, enc_deck(d))]
}

/// Appending one descriptor at the end contributes its entry at the end if
/// it is open, and nothing if it is closed.
pub(crate) proof fn lemma_open_entries_push(fs: Seq<FdV>, f: FdV)
    ensures
        open_entries(fs.push(f)) == open_entries(fs) + (if f.data is Some {
            seq![(storage_entry_name(f), f.data->0)]
        } else {
            Seq::<(Seq<char>, Seq<u8>)>::empty()
        }),
    decreases fs.len(),
{
    let tail = if f.data is Some {
        seq![(storage_entry_name(f), f.data->0)]
    } else {
        Seq::<(Seq<char>, Seq<u8>)>::empty()
    };
    if fs.len() == 0 {
        assert(fs.push(f).first() == f);
        assert(fs.push(f).drop_first() =~= Seq::<FdV>::empty());
        assert(open_entries(fs.push(f)) == tail + open_entries(Seq::<FdV>::empty()));
        assert(open_entries(fs.push(f)) =~~= open_entries(fs) + tail);
    } else {
        assert(fs.push(f).first() == fs.first());
        assert(fs.push(f).drop_first() =~= fs.drop_first().push(f));
        lemma_open_entries_push(fs.drop_first(), f);
        assert(open_entries(fs.push(f)) =~~= open_entries(fs) + tail);
    }
}

/// A closed attachment produces no file under the archive's storage path:
/// the archive entries of a store are exactly those of the store with any
/// closed descriptor taken out.
pub proof fn lemma_closed_skip(fs: Seq<FdV>, i: int)
    requires
        0 <= i < fs.len(),
        !fs[i].is_open(),
    ensures
        open_entries(fs.remove(i)) == open_entries(fs),
    decreases fs.len(),
{
    if i == 0 {
        assert(fs.remove(0) =~= fs.drop_first());
        assert(open_entries(fs) =~~= Seq::<(Seq<char>, Seq<u8>)>::empty() + open_entries(
            fs.drop_first(),
        ));
    } else {
        assert(fs.remove(i).first() == fs.first());
        assert(fs.remove(i).drop_first() =~= fs.drop_first().remove(i - 1));
        lemma_closed_skip(fs.drop_first(), i - 1);
    }
}

/// The entries that remain after dropping every file named `deck`, in
/// order.
pub open spec fn non_deck(es: Seq<(Seq<char>, Seq<u8>)>) -> Seq<(Seq<char>, Seq<u8>)>
    decreases es.len(),
{
    if es.len() == 0 {
        Seq::empty()
    } else {
        (if es.first().0 == "deck"@ {
            Seq::<(Seq<char>, Seq<u8>)>::empty()
        } else {
            seq![es.first()]
        }) + non_deck(es.drop_first())
    }
}

/// The bytes of the last file named `deck`, if any.
pub open spec fn last_deck(es: Seq<(Seq<char>, Seq<u8>)>) -> Option<Seq<u8>>
    decreases es.len(),
{
    if es.len() == 0 {
        None
    } else if es.last().0 == "deck"@ {
        Some(es.last().1)
    } else {
        last_deck(es.drop_last())
    }
}

pub(crate) proof fn lemma_non_deck_push(es: Seq<(Seq<char>, Seq<u8>)>, x: (Seq<char>, Seq<u8>))
    ensures
        non_deck(es.push(x)) == non_deck(es) + (if x.0 == "deck"@ {
            Seq::<(Seq<char>, Seq<u8>)>::empty()
        } else {
            seq![x]
        }),
    decreases es.len(),
{
    let tail = if x.0 == "deck"@ {
        Seq::<(Seq<char>, Seq<u8>)>::empty()
    } else {
        seq![x]
    };
    if es.len() == 0 {
        assert(es.push(x).first() == x);
        assert(es.push(x).drop_first() =~= Seq::<(Seq<char>, Seq<u8>)>::empty());
        assert(non_deck(es.push(x)) == tail + non_deck(Seq::<(Seq<char>, Seq<u8>)>::empty()));
        assert(non_deck(es.push(x)) =~~= non_deck(es) + tail);
    } else {
        assert(es.push(x).first() == es.first());
        assert(es.push(x).drop_first() =~= es.drop_first().push(x));
        lemma_non_deck_push(es.drop_first(), x);
        assert(non_deck(es.push(x)) =~~= non_deck(es) + tail);
    }
}

pub(crate) proof fn lemma_last_deck_push(es: Seq<(Seq<char>, Seq<u8>)>, x: (Seq<char>, Seq<u8>))
    ensures
        last_deck(es.push(x)) == (if x.0 == "deck"@ {
            Some(x.1)
        } else {
            last_deck(es)
        }),
{
    assert(es.push(x).last() == x);
    assert(es.push(x).drop_last() =~= es);
}

/// Dropping the files named `deck` from a list in which no file bears
/// that name changes nothing.
proof fn lemma_non_deck_identity(es: Seq<(Seq<char>, Seq<u8>)>)
    requires
        forall|j: int| 0 <= j < es.len() ==> (#[trigger] es[j]).0 != "deck"@,
    ensures
        non_deck(es) == es,
    decreases es.len(),
{
    if es.len() == 0 {
        assert(non_deck(es) =~= es);
    } else {
        assert(es.first().0 != "deck"@);
        assert forall|j: int|
            0 <= j < es.drop_first().len() implies (#[trigger] es.drop_first()[j]).0
            != "deck"@ by {
            assert(es.drop_first()[j] == es[j + 1]);
        }
        lemma_non_deck_identity(es.drop_first());
        assert(non_deck(es) =~~= es);
    }
}

/// Every entry of an open store is named under the storage path, never
/// `deck`: the storage prefix alone is already longer than `deck`.
proof fn lemma_open_entries_non_deck(fs: Seq<FdV>)
    ensures
        non_deck(open_entries(fs)) == open_entries(fs),
        forall|j: int|
            0 <= j < open_entries(fs).len() ==> (#[trigger] open_entries(fs)[j]).0 != "deck"@,
    decreases fs.len(),
{
    reveal_strlit("storage/");
    reveal_strlit("deck");
    assert forall|j: int|
        0 <= j < open_entries(fs).len() implies (#[trigger] open_entries(fs)[j]).0 != "deck"@ by {
        lemma_open_entries_names(fs, j);
    }
    lemma_non_deck_identity(open_entries(fs));
}

/// Each entry of an open store carries a name of at least the storage
/// prefix's length.
proof fn lemma_open_entries_names(fs: Seq<FdV>, j: int)
    requires
        0 <= j < open_entries(fs).len(),
    ensures
        open_entries(fs)[j].0.len() >= "storage/"@.len(),
    decreases fs.len(),
{
    if fs.len() == 0 {
    } else if fs.first().data is Some {
        if j == 0 {
            assert(open_entries(fs)[0].0 == storage_entry_name(fs.first()));
        } else {
            lemma_open_entries_names(fs.drop_first(), j - 1);
            assert(open_entries(fs)[j] == open_entries(fs.drop_first())[j - 1]);
        }
    } else {
        lemma_open_entries_names(fs.drop_first(), j);
        assert(open_entries(fs) =~= open_entries(fs.drop_first()));
    }
}

/// What a saved archive holds, read back: dropping the snapshot leaves
/// exactly the open attachments' files, in store order, and the one file
/// named `deck` is the metadata snapshot of the deck itself.  Together
/// with [`crate::codec::decode_deck`]'s contract this fixes what loading
/// an archive returns: the saved deck with every attachment closed.
pub proof fn lemma_archive_entries_filter(d: DeckV)
    ensures
        non_deck(archive_entries(d)) == open_entries(d.storage),
        last_deck(archive_entries(d)) == Some(enc_deck(d)),
{
    let open = open_entries(d.storage);
    let x = ("deck"@, enc_deck(d));
    assert(archive_entries(d) =~= open.push(x));
    lemma_non_deck_push(open, x);
    lemma_last_deck_push(open, x);
    lemma_open_entries_non_deck(d.storage);
    assert(non_deck(archive_entries(d)) =~~= open);
}

/// The view of an optional byte buffer.
pub open spec fn obv(o: Option<Vec<u8>>) -> Option<Seq<u8>> {
    match o {
        Some(b) => Some(b@),
        None => None,
    }
}

// ------------------------------------------------------------------
// Saving and loading.
// ------------------------------------------------------------------
/// The display name with every space replaced by an underscore.
pub open spec fn underscored(n: Seq<char>) -> Seq<char> {
    n.map_values(
        |c: char|
            if c == ' ' {
                '_'
            } else {
                c
            },
    )
}

/// The file name a saved deck gets: the underscored display name with the
/// fixed deck extension.
pub open spec fn output_name(n: Seq<char>) -> Seq<char> {
    underscored(n) + ".deck"@
}


/// A UTF-8 encoding never takes more than four bytes per character.
pub proof fn lemma_encode_utf8_len_bound(chars: Seq<char>)
    ensures
        encode_utf8(chars).len() <= 4 * chars.len(),
    decreases chars.len(),
{
    if chars.len() > 0 {
        lemma_encode_utf8_len_bound(chars.drop_first());
    }
}

/// The fixed snapshot entry name `deck` is one tar stores exactly as
/// given.
pub proof fn lemma_deck_name_ok()
    ensures
        tar_name_ok("deck"@),
{
    reveal_strlit("deck");
    lemma_encode_utf8_len_bound("deck"@);
}

/// Every open descriptor of the store has an archive entry name tar
/// stores exactly as given.
pub open spec fn store_names_ok(fs: Seq<FdV>) -> bool {
    forall|i: int|
        0 <= i < fs.len() && (#[trigger] fs[i]).is_open() ==> tar_name_ok(
            storage_entry_name(fs[i]),
        )
}

proof fn lemma_open_entries_ok(fs: Seq<FdV>)
    requires
        store_names_ok(fs),
    ensures
        entries_ok(open_entries(fs)),
    decreases fs.len(),
{
    if fs.len() > 0 {
        assert forall|i: int|
            0 <= i < fs.drop_first().len() && (#[trigger] fs.drop_first()[i]).is_open() implies
            tar_name_ok(storage_entry_name(fs.drop_first()[i])) by {
            assert(fs.drop_first()[i] == fs[i + 1]);
        }
        lemma_open_entries_ok(fs.drop_first());
        assert forall|j: int|
            0 <= j < open_entries(fs).len() implies tar_name_ok(
            (#[trigger] open_entries(fs)[j]).0,
        ) by {
            if fs.first().data is Some {
                if j == 0 {
                    assert(fs[0].is_open());
                    assert(open_entries(fs)[0].0 == storage_entry_name(fs.first()));
                } else {
                    assert(open_entries(fs)[j] == open_entries(fs.drop_first())[j - 1]);
                }
            } else {
                assert(open_entries(fs) =~= open_entries(fs.drop_first()));
            }
        }
    }
}

/// When every open attachment's entry name is tar-safe, so is every name
/// of the saved archive: the only other entry is the snapshot, whose fixed
/// name is tar-safe.  This discharges the load guarantee's premise for the
/// archives [`crate::deck::Deck::save`] promises to produce.
pub proof fn lemma_archive_entries_ok(d: DeckV)
    requires
        store_names_ok(d.storage),
    ensures
        entries_ok(archive_entries(d)),
{
    lemma_open_entries_ok(d.storage);
    lemma_deck_name_ok();
    let open = open_entries(d.storage);
    assert forall|j: int|
        0 <= j < archive_entries(d).len() implies tar_name_ok(
        (#[trigger] archive_entries(d)[j]).0,
    ) by {
        if j < open.len() {
            assert(archive_entries(d)[j] == open[j]);
        } else {
            assert(archive_entries(d)[j] == ("deck"@, enc_deck(d)));
        }
    }
}


/// The storage entry name of a descriptor whose identifier has the
/// generated shape — 36 ASCII characters, none of them a dot, a separator
/// or NUL — and whose extension tag is ASCII, modest in length and free of
/// separators and NUL, is one tar stores exactly as given.  Together with
/// the identifier clauses of [`crate::deck::Deck::new_attachment`] this
/// discharges [`store_names_ok`] for decks whose attachments this library
/// created.
pub proof fn lemma_storage_name_ok(f: FdV)
    requires
        f.id.len() == 36,
        is_ascii_chars(f.id),
        forall|i: int|
            0 <= i < f.id.len() ==> (#[trigger] f.id[i]) != '.' && f.id[i] != '/' && f.id[i] != 0
                as char,
        is_ascii_chars(f.ext),
        f.ext.len() <= 50,
        forall|i: int|
            0 <= i < f.ext.len() ==> (#[trigger] f.ext[i]) != '/' && f.ext[i] != 0 as char,
    ensures
        tar_name_ok(storage_entry_name(f)),
{
    reveal_strlit("storage/");
    reveal_strlit(".");
    let pre = "storage/"@;
    let n = storage_entry_name(f);
    assert(pre.len() == 8);
    assert("."@.len() == 1);
    assert forall|k: int| 0 <= k < pre.len() implies '\0' <= #[trigger] pre[k] <= '\u{7f}'
        && pre[k] != 0 as char && (pre[k] == '/' <==> k == 7) by {}
    assert forall|k: int|
        8 <= k < n.len() implies '\0' <= #[trigger] n[k] <= '\u{7f}' && n[k] != 0 as char && n[k]
        != '/' by {
        let m = f.file_name();
        assert(n[k] == m[k - 8]);
        if f.ext.len() > 0 {
            if k - 8 < 36 {
                assert(m[k - 8] == f.id[k - 8]);
            } else if k - 8 == 36 {
                assert(m[k - 8] == '.');
            } else {
                assert(m[k - 8] == f.ext[k - 8 - 37]);
            }
        } else {
            assert(m[k - 8] == f.id[k - 8]);
        }
    }
    assert forall|k: int| 0 <= k < n.len() implies '\0' <= #[trigger] n[k] <= '\u{7f}' by {
        if k < 8 {
            assert(n[k] == pre[k]);
        }
    }
    is_ascii_chars_encode_utf8(n);
    assert(encode_utf8(n).len() == n.len());
    assert(n.len() <= 8 + 36 + 1 + 50);
    assert forall|k: int| 0 <= k < n.len() implies #[trigger] n[k] != 0 as char by {
        if k < 8 {
            assert(n[k] == pre[k]);
        }
    }
    assert(n[n.len() - 1] != '/');
    assert forall|k: int|
        0 <= k < n.len() && component_start(n, k) implies #[trigger] n[k] != '/' && n[k]
        != '.' by {
        if k == 0 {
            assert(n[0] == pre[0]);
            assert(pre[0] == 's');
        } else {
            assert(n[k - 1] == '/');
            if k - 1 < 8 {
                assert(n[k - 1] == pre[k - 1]);
                assert(k == 8);
                assert(n[8] == f.file_name()[0]);
                assert(f.file_name()[0] == f.id[0]);
            } else {
                assert(false);
            }
        }
    }
}

} // verus!
