//! The rows of the store as executable values, and their views.
use crate::model::{FolderV, NoteEntryV, NoteV, TagV};
use vstd::prelude::*;

verus! {

/// A folder of the tree; `parent_id` is `None` at the top level.
pub struct Folder {
    pub id: i64,
    pub name: String,
    pub parent_id: Option<i64>,
}

/// A stored note row; its tags live in the association table.
pub struct NoteRecord {
    pub id: i64,
    pub title: String,
    pub content: String,
    pub is_markdown: bool,
    pub folder_id: Option<i64>,
}

/// An entry of the tag vocabulary.
pub struct Tag {
    pub id: i64,
    pub name: String,
}

/// A stored preference.
pub struct Preference {
    pub key: String,
    pub value: String,
}

/// A note as it is listed: its fields and the names of its tags.
pub struct Note {
    pub id: i64,
    pub title: String,
    pub content: String,
    pub is_markdown: bool,
    pub tags: Vec<String>,
    pub folder_id: Option<i64>,
}

/// Why a mutation was refused. A refused mutation changes nothing.
#[derive(Debug, Clone, Copy, PartialEq, Eq, Structural)]
pub enum StoreError {
    /// The note to update does not exist.
    NoteNotFound,
    /// The folder named as target, parent or container does not exist.
    FolderNotFound,
    /// A table has run out of identities.
    IdsExhausted,
}

/// The character sequences of some strings.
pub open spec fn names_view(v: Seq<String>) -> Seq<Seq<char>> {
    v.map_values(|s: String| s@)
}

/// The views of some folder rows.
pub open spec fn folders_view(v: Seq<Folder>) -> Seq<FolderV> {
    v.map_values(|f: Folder| f@)
}

/// The views of some note rows.
pub open spec fn notes_view(v: Seq<NoteRecord>) -> Seq<NoteV> {
    v.map_values(|n: NoteRecord| n@)
}

/// The views of some vocabulary rows.
pub open spec fn tags_view(v: Seq<Tag>) -> Seq<TagV> {
    v.map_values(|t: Tag| t@)
}

/// The views of some preference rows.
pub open spec fn prefs_view(v: Seq<Preference>) -> Seq<(Seq<char>, Seq<char>)> {
    v.map_values(|p: Preference| p@)
}

/// The views of some listed notes.
pub open spec fn entries_view(v: Seq<Note>) -> Seq<NoteEntryV> {
    v.map_values(|n: Note| n@)
}

impl View for Folder {
    type V = FolderV;

    open spec fn view(&self) -> FolderV {
        FolderV { id: self.id, name: self.name@, parent_id: self.parent_id }
    }
}

impl View for NoteRecord {
    type V = NoteV;

    open spec fn view(&self) -> NoteV {
        NoteV {
            id: self.id,
            title: self.title@,
            content: self.content@,
            is_markdown: self.is_markdown,
            folder_id: self.folder_id,
        }
    }
}

impl View for Tag {
    type V = TagV;

    open spec fn view(&self) -> TagV {
        TagV { id: self.id, name: self.name@ }
    }
}

impl View for Preference {
    type V = (Seq<char>, Seq<char>);

    open spec fn view(&self) -> (Seq<char>, Seq<char>) {
        (self.key@, self.value@)
    }
}

impl View for Note {
    type V = NoteEntryV;

    open spec fn view(&self) -> NoteEntryV {
        NoteEntryV {
            id: self.id,
            title: self.title@,
            content: self.content@,
            is_markdown: self.is_markdown,
            tags: names_view(self.tags@),
            folder_id: self.folder_id,
        }
    }
}

impl Folder {
    /// A copy of the row.
    pub fn duplicate(&self) -> (r: Folder)
        ensures
            r@ == self@,
    {
        Folder { id: self.id, name: self.name.clone(), parent_id: self.parent_id }
    }
}

impl NoteRecord {
    /// A copy of the row.
    pub fn duplicate(&self) -> (r: NoteRecord)
        ensures
            r@ == self@,
    {
        NoteRecord {
            id: self.id,
            title: self.title.clone(),
            content: self.content.clone(),
            is_markdown: self.is_markdown,
            folder_id: self.folder_id,
        }
    }
}

impl Tag {
    /// A copy of the row.
    pub fn duplicate(&self) -> (r: Tag)
        ensures
            r@ == self@,
    {
        Tag { id: self.id, name: self.name.clone() }
    }
}

impl Preference {
    /// A copy of the row.
    pub fn duplicate(&self) -> (r: Preference)
        ensures
            r@ == self@,
    {
        Preference { key: self.key.clone(), value: self.value.clone() }
    }
}

} // verus!
