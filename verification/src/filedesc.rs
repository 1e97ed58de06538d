//! Program file descriptors.  A [`FileDesc`] links a binary file with one or
//! more flash cards and carries the file's bytes while it is open; a deck's
//! `Vec<FileDesc>` is called the storage.  On the file system the storage is
//! a directory of uniquely named files, one per descriptor.

use crate::outside::fresh_id;
use vstd::prelude::*;
use vstd::string::StringExecFns;
use vstd::utf8::is_ascii_chars;

verus! {

/// The mathematical value of a [`FileDesc`]: identifier, extension tag,
/// reference count, and the bytes held in memory (`None` when closed).
#[verifier::ext_equal]
pub struct FdV {
    pub id: Seq<char>,
    pub ext: Seq<char>,
    pub rc: u32,
    pub data: Option<Seq<u8>>,
}

impl FdV {
    /// Whether the descriptor currently holds its bytes in memory.
    pub open spec fn is_open(self) -> bool {
        self.data is Some
    }

    /// The same descriptor with its bytes released.
    pub open spec fn closed(self) -> FdV {
        FdV { data: None, ..self }
    }

    /// The name of the descriptor's file inside a storage directory: the
    /// identifier, then a dot and the extension unless the extension is
    /// empty.
    pub open spec fn file_name(self) -> Seq<char> {
        if self.ext.len() == 0 {
            self.id
        } else {
            self.id + "."@ + self.ext
        }
    }
}

/// Releasing bytes twice is the same as releasing them once.
pub proof fn lemma_close_idempotent(f: FdV)
    ensures
        f.closed().closed() == f.closed(),
        !f.closed().is_open(),
        f.closed().id == f.id,
        f.closed().ext == f.ext,
        f.closed().rc == f.rc,
{
}

/// A single binary attachment: identity, file-type tag, reference count and
/// an open/closed data-residency state.
#[derive(Debug)]
pub struct FileDesc {
    pub(crate) id: String,
    pub(crate) ext: String,
    pub(crate) rc: u32,
    pub(crate) data: Option<Vec<u8>>,
}

impl View for FileDesc {
    type V = FdV;

    closed spec fn view(&self) -> FdV {
        FdV {
            id: self.id@,
            ext: self.ext@,
            rc: self.rc,
            data: match self.data {
                Some(ref d) => Some(d@),
                None => None,
            },
        }
    }
}

impl FileDesc {
    /// A new descriptor in the open state, holding the given bytes under a
    /// freshly generated identifier.  `ext` is the file-type tag taken from
    /// the source file's extension (empty if the source had none); `rc` is
    /// how many flash cards reference this descriptor.
    pub fn new(ext: String, rc: u32, data: Vec<u8>) -> (r: FileDesc)
        ensures
            r@.ext == ext@,
            r@.rc == rc,
            r@.data == Some(data@),
            r@.id.len() == 36,
            is_ascii_chars(r@.id),
            forall|i: int|
                0 <= i < r@.id.len() ==> r@.id[i] != '.' && r@.id[i] != '/' && r@.id[i] != 0
                    as char,
    {
        FileDesc { id: fresh_id(), ext, rc, data: Some(data) }
    }

    /// A descriptor rebuilt from persisted metadata, in the closed state.
    pub(crate) fn from_meta(id: String, ext: String, rc: u32) -> (r: FileDesc)
        ensures
            r@ == (FdV { id: id@, ext: ext@, rc, data: None }),
    {
        FileDesc { id, ext, rc, data: None }
    }

    /// Place the given bytes in this descriptor, replacing any previous
    /// in-memory bytes; the descriptor is open afterwards.  The caller reads
    /// the bytes from the descriptor's file under a storage directory.
    pub fn open(&mut self, data: Vec<u8>)
        ensures
            final(self)@ == (FdV { data: Some(data@), ..old(self)@ }),
    {
        self.data = Some(data);
    }

    /// Remove the file data stored in this descriptor.  Always succeeds and
    /// is idempotent.
    pub fn close(&mut self)
        ensures
            final(self)@ == old(self)@.closed(),
    {
        self.data = None;
    }

    /// Check if there is some data stored by this descriptor.
    pub fn is_opened(&self) -> (r: bool)
        ensures
            r == self@.is_open(),
    {
        self.data.is_some()
    }

    /// The unique identifier of this descriptor.
    pub fn id(&self) -> (r: &String)
        ensures
            r@ == self@.id,
    {
        &self.id
    }

    /// The file-type tag of this descriptor, without the dot.
    pub fn ext(&self) -> (r: &String)
        ensures
            r@ == self@.ext,
    {
        &self.ext
    }

    /// How many flash cards reference this descriptor.
    pub fn rc(&self) -> (r: u32)
        ensures
            r == self@.rc,
    {
        self.rc
    }

    /// The bytes held in memory, or `None` when closed.
    pub fn data(&self) -> (r: &Option<Vec<u8>>)
        ensures
            self@.data is Some <==> r is Some,
            r matches Some(d) ==> self@.data == Some(d@),
    {
        &self.data
    }

    /// The name of this descriptor's file inside a storage directory.
    pub fn file_name(&self) -> (r: String)
        ensures
            r@ == self@.file_name(),
    {
        if self.ext.as_str().unicode_len() == 0 {
            self.id.clone()
        } else {
            let mut name = self.id.clone();
            name.append(".");
            name.append(self.ext.as_str());
            name
        }
    }
}

} // verus!
