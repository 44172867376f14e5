//! Archives of files.
//!
//! Archives are opened by `zip`. What an archive holds becomes the library's own list of
//! files, which the frontend reads.
use crate::error::{Complaint, Failure};
#[allow(unused_imports)]
use crate::error::FailureView;
use crate::text;
use std::io::Read;
use vstd::prelude::*;

verus! {

/// What is said of a file that an archive does not have.
pub const NOT_FOUND: &'static str = "specified file not found in archive";

/// What can be had of a file in an archive.
#[derive(Debug)]
pub enum Content {
    /// Why the file cannot be opened.
    Closed(String),
    /// Why the file, which can be opened, cannot be read to its end.
    Damaged(String),
    Bytes(Vec<u8>),
}

/// A file of an archive.
#[derive(Debug)]
pub struct ArchiveFile {
    pub name: String,
    pub content: Content,
}

/// The contents of an archive.
#[derive(Debug)]
pub struct Archive {
    /// The text of `model.ini`, or why the archive does not give it.
    pub ini: Result<String, String>,
    pub files: Vec<ArchiveFile>,
}

#[verifier::ext_equal]
pub ghost struct FileView {
    pub name: Seq<char>,
    /// Why the file cannot be opened, or then why it cannot be read.
    pub content: Result<Result<Seq<u8>, Seq<char>>, Seq<char>>,
}

#[verifier::ext_equal]
pub ghost struct ArchiveView {
    pub ini: Result<Seq<char>, Seq<char>>,
    pub files: Seq<FileView>,
}

impl View for ArchiveFile {
    type V = FileView;

    open spec fn view(&self) -> FileView {
        FileView {
            name: self.name@,
            content: match self.content {
                Content::Closed(fault) => Err(fault@),
                Content::Damaged(fault) => Ok(Err(fault@)),
                Content::Bytes(data) => Ok(Ok(data@)),
            },
        }
    }
}

/// The views of the files in a list.
pub open spec fn file_views(files: Seq<ArchiveFile>) -> Seq<FileView> {
    files.map_values(|f: ArchiveFile| f@)
}

impl View for Archive {
    type V = ArchiveView;

    open spec fn view(&self) -> ArchiveView {
        ArchiveView {
            ini: match self.ini {
                Ok(content) => Ok(content@),
                Err(fault) => Err(fault@),
            },
            files: file_views(self.files@),
        }
    }
}

/// The archive type of `zip`.
#[verifier::external_type_specification]
#[verifier::external_body]
#[verifier::reject_recursive_types(R)]
pub struct ExZipArchive<R>(zip::ZipArchive<R>);

/// The reader of bytes in memory.
#[verifier::external_type_specification]
#[verifier::external_body]
#[verifier::reject_recursive_types(T)]
pub struct ExCursor<T>(std::io::Cursor<T>);

/// The files of an open archive, by index: the name, and what can be had of the content.
pub uninterp spec fn entries(archive: zip::ZipArchive<std::io::Cursor<Vec<u8>>>) -> Seq<
    (Seq<char>, Result<Result<Seq<u8>, Seq<char>>, Seq<char>>),
>;

/// The files that `zip::ZipArchive::new` finds in a file of these bytes, or what it says of
/// bytes that are no archive.
pub uninterp spec fn entries_of_bytes(bytes: Seq<u8>) -> Result<
    Seq<(Seq<char>, Result<Result<Seq<u8>, Seq<char>>, Seq<char>>)>,
    Seq<char>,
>;

/// What is said of bytes that are no UTF-8 text.
pub uninterp spec fn utf8_fault(bytes: Seq<u8>) -> Seq<char>;

/// `zip::ZipArchive::new` opens the archive in some bytes or rejects them; what the archive
/// holds, and what is said of bytes that are none, is a function of the bytes. Which bytes are
/// an archive of which files is left to that crate.
#[verifier::external_body]
fn open_zip(bytes: Vec<u8>) -> (r: Result<zip::ZipArchive<std::io::Cursor<Vec<u8>>>, String>)
    ensures
        entries_of_bytes(bytes@) == (match r {
            Ok(archive) => Ok::<
                Seq<(Seq<char>, Result<Result<Seq<u8>, Seq<char>>, Seq<char>>)>,
                Seq<char>,
            >(entries(archive)),
            Err(fault) => Err(fault@),
        }),
{
    match zip::ZipArchive::new(std::io::Cursor::new(bytes)) {
        Ok(archive) => Ok(archive),
        Err(fault) => Err(fault.to_string()),
    }
}

/// What `zip::result::ZipError::FileNotFound`, the error of a name that no file has, says.
#[verifier::external_body]
pub(crate) fn not_found() -> (r: String)
    ensures
        r@ == NOT_FOUND@,
{
    zip::result::ZipError::FileNotFound.to_string()
}

/// `zip::ZipArchive::len` counts the files.
#[verifier::external_body]
fn entry_count(archive: &zip::ZipArchive<std::io::Cursor<Vec<u8>>>) -> (r: usize)
    ensures
        r == entries(*archive).len(),
{
    archive.len()
}

/// `zip::ZipArchive::name_for_index` gives the name of a file, and nothing beyond the last.
#[verifier::external_body]
fn entry_name(archive: &zip::ZipArchive<std::io::Cursor<Vec<u8>>>, index: usize) -> (r: Option<
    String,
>)
    ensures
        match r {
            Some(name) => index < entries(*archive).len() && name@ == entries(
                *archive,
            )[index as int].0,
            None => index >= entries(*archive).len(),
        },
{
    archive.name_for_index(index).map(|name| name.to_owned())
}

/// `zip::ZipArchive::by_index` opens a file, which is then read to its end; what is said where
/// either fails belongs to the file. The archive keeps what it holds.
#[verifier::external_body]
fn entry_content(
    archive: &mut zip::ZipArchive<std::io::Cursor<Vec<u8>>>,
    index: usize,
) -> (r: Content)
    requires
        index < entries(*old(archive)).len(),
    ensures
        entries(*final(archive)) == entries(*old(archive)),
        entries(*old(archive))[index as int].1 == (match r {
            Content::Closed(fault) => Err::<Result<Seq<u8>, Seq<char>>, Seq<char>>(fault@),
            Content::Damaged(fault) => Ok(Err(fault@)),
            Content::Bytes(data) => Ok(Ok(data@)),
        }),
{
    let mut data = Vec::new();
    match archive.by_index(index) {
        Ok(mut entry) => match entry.read_to_end(&mut data) {
            Ok(_) => Content::Bytes(data),
            Err(fault) => Content::Damaged(fault.to_string()),
        },
        Err(fault) => Content::Closed(fault.to_string()),
    }
}

/// `std::io::Read::read_to_string` on bytes in memory decodes them exactly if they are valid
/// UTF-8. What it says of others is a function of the bytes.
#[verifier::external_body]
fn text_of_bytes(bytes: &Vec<u8>) -> (r: Result<String, String>)
    ensures
        match r {
            Ok(content) => vstd::utf8::valid_utf8(bytes@) && content@ == vstd::utf8::decode_utf8(
                bytes@,
            ),
            Err(fault) => !vstd::utf8::valid_utf8(bytes@) && fault@ == utf8_fault(bytes@),
        },
{
    let mut content = String::new();
    match bytes.as_slice().read_to_string(&mut content) {
        Ok(_) => Ok(content),
        Err(fault) => Err(fault.to_string()),
    }
}

/// The first file at or after `from` that has the name.
pub open spec fn file_from(files: Seq<FileView>, name: Seq<char>, from: int) -> Option<FileView>
    decreases files.len() - from,
{
    if from < 0 || from >= files.len() {
        None
    } else if files[from].name == name {
        Some(files[from])
    } else {
        file_from(files, name, from + 1)
    }
}

/// The first file that has the name.
pub fn find_file<'a>(files: &'a Vec<ArchiveFile>, name: &str) -> (r: Option<&'a ArchiveFile>)
    ensures
        match r {
            Some(file) => file_from(file_views(files@), name@, 0) == Some(file@),
            None => file_from(file_views(files@), name@, 0) is None,
        },
{
    let mut i: usize = 0;
    while i < files.len()
        invariant
            i <= files.len(),
            file_from(file_views(files@), name@, 0) == file_from(
                file_views(files@),
                name@,
                i as int,
            ),
        decreases files.len() - i,
    {
        assert(file_views(files@)[i as int] == files[i as int]@);
        if text::same(files[i].name.as_str(), name) {
            return Some(&files[i]);
        }
        i = i + 1;
    }
    None
}

/// What is said of a file that cannot be read.
pub open spec fn unreadable(fault: Seq<char>) -> FailureView {
    FailureView::About { complaint: Complaint::Unreadable, text: fault }
}

/// What a list of files is as the contents of an archive.
pub open spec fn archive_of(files: Seq<FileView>) -> Result<ArchiveView, FailureView> {
    match file_from(files, "model.ini"@, 0) {
        None => Ok(ArchiveView { ini: Err(NOT_FOUND@), files }),
        Some(file) => match file.content {
            Err(fault) => Ok(ArchiveView { ini: Err(fault), files }),
            Ok(Err(fault)) => Err(unreadable(fault)),
            Ok(Ok(data)) => if vstd::utf8::valid_utf8(data) {
                Ok(ArchiveView { ini: Ok(vstd::utf8::decode_utf8(data)), files })
            } else {
                Err(unreadable(utf8_fault(data)))
            },
        },
    }
}

/// The contents of an archive of these files. `model.ini` has to be text.
pub fn gather(files: Vec<ArchiveFile>) -> (r: Result<Archive, Failure>)
    ensures
        match r {
            Ok(archive) => archive_of(file_views(files@)) == Ok::<ArchiveView, FailureView>(
                archive@,
            ),
            Err(e) => archive_of(file_views(files@)) == Err::<ArchiveView, FailureView>(e@),
        },
{
    let ini = match find_file(&files, "model.ini") {
        None => Err(not_found()),
        Some(file) => match &file.content {
            Content::Closed(fault) => Err(fault.clone()),
            Content::Damaged(fault) => {
                return Err(
                    Failure::About { complaint: Complaint::Unreadable, text: fault.clone() },
                );
            },
            Content::Bytes(data) => match text_of_bytes(data) {
                Err(fault) => {
                    return Err(
                        Failure::About { complaint: Complaint::Unreadable, text: fault },
                    );
                },
                Ok(content) => Ok(content),
            },
        },
    };
    Ok(Archive { ini, files })
}

/// The files that entries stand for.
pub open spec fn entry_files(
    list: Seq<(Seq<char>, Result<Result<Seq<u8>, Seq<char>>, Seq<char>>)>,
) -> Seq<FileView> {
    list.map_values(
        |e: (Seq<char>, Result<Result<Seq<u8>, Seq<char>>, Seq<char>>)|
            FileView { name: e.0, content: e.1 },
    )
}

/// The contents of the archive in some bytes.
pub open spec fn unpacked(bytes: Seq<u8>) -> Result<ArchiveView, FailureView> {
    match entries_of_bytes(bytes) {
        Err(fault) => Err(
            FailureView::About { complaint: Complaint::NotAnArchive, text: fault },
        ),
        Ok(list) => archive_of(entry_files(list)),
    }
}

/// Opens the archive in some bytes and reads all its files.
pub fn unpack(bytes: Vec<u8>) -> (r: Result<Archive, Failure>)
    ensures
        match r {
            Ok(archive) => unpacked(bytes@) == Ok::<ArchiveView, FailureView>(archive@),
            Err(e) => unpacked(bytes@) == Err::<ArchiveView, FailureView>(e@),
        },
{
    let mut archive = match open_zip(bytes) {
        Ok(archive) => archive,
        Err(fault) => {
            return Err(Failure::About { complaint: Complaint::NotAnArchive, text: fault });
        },
    };
    let ghost list = entries(archive);
    let count: usize = entry_count(&archive);
    let mut files: Vec<ArchiveFile> = Vec::new();
    let mut i: usize = 0;
    assert(file_views(files@) =~= entry_files(list).take(0));
    while i < count
        invariant
            i <= count == list.len(),
            entries(archive) == list,
            file_views(files@) == entry_files(list).take(i as int),
        decreases count - i,
    {
        let ghost before = files@;
        match entry_name(&archive, i) {
            Some(name) => {
                let content = entry_content(&mut archive, i);
                files.push(ArchiveFile { name, content });
            },
            None => {},
        }
        proof {
            assert(file_views(files@) =~= file_views(before).push(files@.last()@));
            assert(file_views(files@) =~= entry_files(list).take(i + 1));
        }
        i = i + 1;
    }
    proof {
        assert(file_views(files@) =~= entry_files(list));
    }
    gather(files)
}

proof fn lemma_file_from(files: Seq<FileView>, name: Seq<char>, from: int)
    requires
        0 <= from <= files.len(),
    ensures
        match file_from(files, name, from) {
            Some(file) => file.name == name && exists|k: int|
                from <= k < files.len() && #[trigger] files[k] == file && forall|j: int|
                    from <= j < k ==> (#[trigger] files[j]).name != name,
            None => forall|k: int| from <= k < files.len() ==> (#[trigger] files[k]).name != name,
        },
    decreases files.len() - from,
{
    if from < files.len() {
        if files[from].name == name {
            assert(files[from] == files[from]);
        } else {
            lemma_file_from(files, name, from + 1);
            if let Some(file) = file_from(files, name, from + 1) {
                let k = choose|k: int|
                    from + 1 <= k < files.len() && #[trigger] files[k] == file && forall|j: int|
                        from + 1 <= j < k ==> (#[trigger] files[j]).name != name;
                assert(files[k] == file);
            }
        }
    }
}

/// A file is found by its name, the first if several have it; none is found if no file has it.
pub proof fn files_are_found_by_name(files: Seq<FileView>, name: Seq<char>)
    ensures
        match file_from(files, name, 0) {
            Some(file) => file.name == name && exists|k: int|
                0 <= k < files.len() && #[trigger] files[k] == file && forall|j: int|
                    0 <= j < k ==> (#[trigger] files[j]).name != name,
            None => forall|k: int| 0 <= k < files.len() ==> (#[trigger] files[k]).name != name,
        },
{
    lemma_file_from(files, name, 0);
}

/// The text of `model.ini` is what its bytes encode, and all files of an archive are kept as they
/// are, in their order.
pub proof fn archives_keep_their_files(files: Seq<FileView>)
    requires
        archive_of(files) is Ok,
    ensures
        ({
            let archive = archive_of(files)->Ok_0;
            &&& archive.files == files
            &&& archive.ini matches Ok(content) ==> (file_from(files, "model.ini"@, 0) matches Some(
                file,
            ) && (file.content matches Ok(Ok(data)) && vstd::utf8::valid_utf8(data) && content
                == vstd::utf8::decode_utf8(data)))
        }),
{
}

} // verus!
