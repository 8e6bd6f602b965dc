//! The library's error type and its messages.

use vstd::prelude::*;
use vstd::string::*;

use crate::text::{cat2, cat3, cat4, cat6, joined, join_texts, views};

verus! {

/// What can go wrong.
#[derive(Debug)]
pub enum RevenantError {
    Config(String),
    Io { path: String, source: String },
    BtrfsIoctl { path: String, message: String, source: String },
    SubvolumeNotFound(String),
    SnapshotNotFound(String),
    IncompleteSnapshot { id: String, missing: Vec<String> },
    NotBtrfs { path: String },
    Mount(String),
    EfiSync(String),
    Bootloader(String),
    NotRoot,
    ProtectedSnapshot { strain: String, id: String },
    Other(String),
}

/// An error with its texts.
pub enum ErrorView {
    Config(Seq<char>),
    Io { path: Seq<char>, source: Seq<char> },
    BtrfsIoctl { path: Seq<char>, message: Seq<char>, source: Seq<char> },
    SubvolumeNotFound(Seq<char>),
    SnapshotNotFound(Seq<char>),
    IncompleteSnapshot { id: Seq<char>, missing: Seq<Seq<char>> },
    NotBtrfs { path: Seq<char> },
    Mount(Seq<char>),
    EfiSync(Seq<char>),
    Bootloader(Seq<char>),
    NotRoot,
    ProtectedSnapshot { strain: Seq<char>, id: Seq<char> },
    Other(Seq<char>),
}

impl View for RevenantError {
    type V = ErrorView;

    open spec fn view(&self) -> ErrorView {
        match self {
            RevenantError::Config(m) => ErrorView::Config(m@),
            RevenantError::Io { path, source } => ErrorView::Io { path: path@, source: source@ },
            RevenantError::BtrfsIoctl { path, message, source } => ErrorView::BtrfsIoctl {
                path: path@,
                message: message@,
                source: source@,
            },
            RevenantError::SubvolumeNotFound(p) => ErrorView::SubvolumeNotFound(p@),
            RevenantError::SnapshotNotFound(p) => ErrorView::SnapshotNotFound(p@),
            RevenantError::IncompleteSnapshot { id, missing } => ErrorView::IncompleteSnapshot {
                id: id@,
                missing: views(missing@),
            },
            RevenantError::NotBtrfs { path } => ErrorView::NotBtrfs { path: path@ },
            RevenantError::Mount(m) => ErrorView::Mount(m@),
            RevenantError::EfiSync(m) => ErrorView::EfiSync(m@),
            RevenantError::Bootloader(m) => ErrorView::Bootloader(m@),
            RevenantError::NotRoot => ErrorView::NotRoot,
            RevenantError::ProtectedSnapshot { strain, id } => ErrorView::ProtectedSnapshot {
                strain: strain@,
                id: id@,
            },
            RevenantError::Other(m) => ErrorView::Other(m@),
        }
    }
}

/// A result whose error is a [`RevenantError`].
pub type Result<T> = std::result::Result<T, RevenantError>;

/// The quoted form that the standard library's `Debug` gives a text.
pub uninterp spec fn quoted_form(s: Seq<char>) -> Seq<char>;

/// Formats a `str` with `{:?}`: quotes round the text and escapes inside it.
#[verifier::external_body]
pub(crate) fn quoted(s: &str) -> (r: String)
    ensures
        r@ == quoted_form(s@),
{
    format!("{s:?}")
}

/// The quoted forms of some texts.
pub open spec fn quoted_forms(v: Seq<Seq<char>>) -> Seq<Seq<char>> {
    Seq::new(v.len(), |i: int| quoted_form(v[i]))
}

/// The list form of some texts: each quoted, commas between, brackets round.
pub open spec fn list_form(v: Seq<Seq<char>>) -> Seq<char> {
    "["@ + joined(quoted_forms(v), ", "@) + "]"@
}

/// The list form of some texts.
pub(crate) fn quoted_list(v: &Vec<String>) -> (r: String)
    ensures
        r@ == list_form(views(v@)),
{
    let mut items: Vec<String> = Vec::new();
    let mut i: usize = 0;
    while i < v.len()
        invariant
            i <= v.len(),
            views(items@) == quoted_forms(views(v@)).take(i as int),
        decreases v.len() - i,
    {
        let item = quoted(v[i].as_str());
        let ghost before = items@;
        items.push(item);
        proof {
            crate::text::lemma_views_push(before, item);
            assert(quoted_forms(views(v@)).take(i + 1) =~= quoted_forms(views(v@)).take(
                i as int,
            ).push(quoted_form(v@[i as int]@)));
        }
        i = i + 1;
    }
    assert(quoted_forms(views(v@)).take(v@.len() as int) =~= quoted_forms(views(v@)));
    cat3("[", join_texts(&items, ", ").as_str(), "]")
}

impl ErrorView {
    /// The message shown for the error.
    pub open spec fn text(self) -> Seq<char> {
        match self {
            ErrorView::Config(m) => "configuration error: "@ + m,
            ErrorView::Io { path, source } => "I/O error at "@ + path + ": "@ + source,
            ErrorView::BtrfsIoctl { path, message, source } => "btrfs ioctl failed on "@ + path
                + ": "@ + message + ": "@ + source,
            ErrorView::SubvolumeNotFound(p) => "subvolume not found: "@ + p,
            ErrorView::SnapshotNotFound(p) => "snapshot not found: "@ + p,
            ErrorView::IncompleteSnapshot { id, missing } => "incomplete snapshot "@ + id
                + ": missing components: "@ + list_form(missing),
            ErrorView::NotBtrfs { path } => "filesystem at "@ + path + " is not btrfs"@,
            ErrorView::Mount(m) => "mount error: "@ + m,
            ErrorView::EfiSync(m) => "EFI sync error: "@ + m,
            ErrorView::Bootloader(m) => "bootloader error: "@ + m,
            ErrorView::NotRoot => "operation requires root privileges"@,
            ErrorView::ProtectedSnapshot { strain, id } => "snapshot "@ + strain + "@"@ + id
                + " is protected; run `revenantctl edit "@ + strain + "@"@ + id
                + " --unprotect` first"@,
            ErrorView::Other(m) => m,
        }
    }
}

impl RevenantError {
    /// An I/O error at `path`.
    pub fn io(path: &str, source: &str) -> (r: RevenantError)
        ensures
            r@ == (ErrorView::Io { path: path@, source: source@ }),
    {
        RevenantError::Io { path: path.to_owned(), source: source.to_owned() }
    }

    /// The message shown for the error.
    pub fn message(&self) -> (r: String)
        ensures
            r@ == self@.text(),
    {
        match self {
            RevenantError::Config(m) => cat2("configuration error: ", m.as_str()),
            RevenantError::Io { path, source } => cat4(
                "I/O error at ",
                path.as_str(),
                ": ",
                source.as_str(),
            ),
            RevenantError::BtrfsIoctl { path, message, source } => cat6(
                "btrfs ioctl failed on ",
                path.as_str(),
                ": ",
                message.as_str(),
                ": ",
                source.as_str(),
            ),
            RevenantError::SubvolumeNotFound(p) => cat2("subvolume not found: ", p.as_str()),
            RevenantError::SnapshotNotFound(p) => cat2("snapshot not found: ", p.as_str()),
            RevenantError::IncompleteSnapshot { id, missing } => cat4(
                "incomplete snapshot ",
                id.as_str(),
                ": missing components: ",
                quoted_list(missing).as_str(),
            ),
            RevenantError::NotBtrfs { path } => cat3(
                "filesystem at ",
                path.as_str(),
                " is not btrfs",
            ),
            RevenantError::Mount(m) => cat2("mount error: ", m.as_str()),
            RevenantError::EfiSync(m) => cat2("EFI sync error: ", m.as_str()),
            RevenantError::Bootloader(m) => cat2("bootloader error: ", m.as_str()),
            RevenantError::NotRoot => "operation requires root privileges".to_owned(),
            RevenantError::ProtectedSnapshot { strain, id } => {
                let mut s = cat4("snapshot ", strain.as_str(), "@", id.as_str());
                s.append(" is protected; run `revenantctl edit ");
                s.append(strain.as_str());
                s.append("@");
                s.append(id.as_str());
                s.append(" --unprotect` first");
                s
            },
            RevenantError::Other(m) => m.clone(),
        }
    }
}

} // verus!
