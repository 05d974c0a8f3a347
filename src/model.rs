//! The relational model of a notebook: its tables as mathematical sequences
//! and sets, the consistency rules between them, and what each operation does
//! to them.
use vstd::prelude::*;

verus! {

broadcast use vstd::seq_lib::group_filter_ensures;

/// A folder row: identity, display name and optional parent folder.
pub struct FolderV {
    pub id: i64,
    pub name: Seq<char>,
    pub parent_id: Option<i64>,
}

/// A note row, without its tags.
pub struct NoteV {
    pub id: i64,
    pub title: Seq<char>,
    pub content: Seq<char>,
    pub is_markdown: bool,
    pub folder_id: Option<i64>,
}

/// An entry of the tag vocabulary.
pub struct TagV {
    pub id: i64,
    pub name: Seq<char>,
}

/// A note as it is listed: its row joined with the names of its tags.
pub struct NoteEntryV {
    pub id: i64,
    pub title: Seq<char>,
    pub content: Seq<char>,
    pub is_markdown: bool,
    pub tags: Seq<Seq<char>>,
    pub folder_id: Option<i64>,
}

/// The whole store. `links` is the note/tag association table, as pairs
/// `(note_id, tag_id)`; `prefs` holds `(key, value)` pairs. The `next_*`
/// counters give the identity that the next row of a table receives.
pub struct NotebookV {
    pub folders: Seq<FolderV>,
    pub notes: Seq<NoteV>,
    pub tags: Seq<TagV>,
    pub links: Set<(i64, i64)>,
    pub prefs: Seq<(Seq<char>, Seq<char>)>,
    pub next_folder_id: int,
    pub next_note_id: int,
    pub next_tag_id: int,
}

/// Whether `fragment` occurs in `text` as a contiguous run of characters.
pub open spec fn has_substring(text: Seq<char>, fragment: Seq<char>) -> bool {
    exists|i: int|
        0 <= i && i + fragment.len() <= text.len() && #[trigger] text.subrange(
            i,
            i + fragment.len(),
        ) == fragment
}

/// Whether the vocabulary `tags` has an entry called `name`.
pub open spec fn has_tag_named(tags: Seq<TagV>, name: Seq<char>) -> bool {
    exists|i: int| 0 <= i < tags.len() && #[trigger] tags[i].name == name
}

/// Whether the vocabulary `tags` has an entry called `name` with identity `id`.
pub open spec fn tag_named(tags: Seq<TagV>, name: Seq<char>, id: i64) -> bool {
    exists|i: int| 0 <= i < tags.len() && #[trigger] tags[i].name == name && tags[i].id == id
}

/// The vocabulary after each of `names` has been made to exist: names already
/// present are reused, each absent one is appended once, in order of first
/// occurrence, with consecutive identities starting at `next`.
pub open spec fn absorb(tags: Seq<TagV>, next: int, names: Seq<Seq<char>>) -> Seq<TagV>
    decreases names.len(),
{
    if names.len() == 0 {
        tags
    } else {
        let prev = absorb(tags, next, names.drop_last());
        if has_tag_named(prev, names.last()) {
            prev
        } else {
            prev.push(TagV { id: (next + prev.len() - tags.len()) as i64, name: names.last() })
        }
    }
}

/// Identities that grow strictly along a table.
pub open spec fn ids_increasing(ids: Seq<i64>) -> bool {
    forall|i: int, j: int| 0 <= i < j < ids.len() ==> ids[i] < ids[j]
}

/// The identities of a folder table, in order.
pub open spec fn folder_ids(folders: Seq<FolderV>) -> Seq<i64> {
    folders.map_values(|f: FolderV| f.id)
}

/// The identities of a note table, in order.
pub open spec fn note_ids(notes: Seq<NoteV>) -> Seq<i64> {
    notes.map_values(|n: NoteV| n.id)
}

/// The identities of a vocabulary, in order.
pub open spec fn tag_ids(tags: Seq<TagV>) -> Seq<i64> {
    tags.map_values(|t: TagV| t.id)
}

/// A vocabulary whose identities grow, stay below `next`, and whose names are
/// pairwise distinct.
pub open spec fn vocabulary_valid(tags: Seq<TagV>, next: int) -> bool {
    &&& ids_increasing(tag_ids(tags))
    &&& forall|i: int| 0 <= i < tags.len() ==> #[trigger] tags[i].id < next
    &&& forall|i: int, j: int|
        0 <= i < j < tags.len() ==> #[trigger] tags[i].name != #[trigger] tags[j].name
}

/// The names of some vocabulary entries, in their order.
pub open spec fn vocabulary_names(tags: Seq<TagV>) -> Seq<Seq<char>> {
    tags.map_values(|t: TagV| t.name)
}

/// The listed notes with a tag whose name contains `fragment`.
pub open spec fn tag_matches(fragment: Seq<char>) -> spec_fn(NoteEntryV) -> bool {
    |e: NoteEntryV| exists|k: int| 0 <= k < e.tags.len() && has_substring(#[trigger] e.tags[k], fragment)
}

/// The identity that follows the last of `ids`, or 1 when there is none.
pub open spec fn next_after(ids: Seq<i64>) -> int {
    if ids.len() == 0 {
        1
    } else {
        ids.last() + 1
    }
}

/// A store made of stored rows; each counter follows the last identity of
/// its table.
pub open spec fn assemble(
    folders: Seq<FolderV>,
    notes: Seq<NoteV>,
    tags: Seq<TagV>,
    links: Seq<(i64, i64)>,
    prefs: Seq<(Seq<char>, Seq<char>)>,
) -> NotebookV {
    NotebookV {
        folders,
        notes,
        tags,
        links: links.to_set(),
        prefs,
        next_folder_id: next_after(folder_ids(folders)),
        next_note_id: next_after(note_ids(notes)),
        next_tag_id: next_after(tag_ids(tags)),
    }
}

/// The notes whose identity is not `id`.
pub open spec fn note_other_than(id: i64) -> spec_fn(NoteV) -> bool {
    |n: NoteV| n.id != id
}

/// The associations that do not belong to note `id`.
pub open spec fn link_other_than(id: i64) -> spec_fn((i64, i64)) -> bool {
    |l: (i64, i64)| l.0 != id
}

impl NotebookV {
    /// Whether a folder with identity `id` exists.
    pub open spec fn has_folder(self, id: i64) -> bool {
        exists|i: int| 0 <= i < self.folders.len() && #[trigger] self.folders[i].id == id
    }

    /// Whether a note with identity `id` exists.
    pub open spec fn has_note(self, id: i64) -> bool {
        exists|i: int| 0 <= i < self.notes.len() && #[trigger] self.notes[i].id == id
    }

    /// Whether a vocabulary entry with identity `id` exists.
    pub open spec fn has_tag(self, id: i64) -> bool {
        exists|i: int| 0 <= i < self.tags.len() && #[trigger] self.tags[i].id == id
    }

    /// Whether a preference is stored under `key`.
    pub open spec fn has_pref(self, key: Seq<char>) -> bool {
        exists|i: int| 0 <= i < self.prefs.len() && #[trigger] self.prefs[i].0 == key
    }

    /// The consistency rules of the store.
    pub open spec fn valid(self) -> bool {
        &&& 1 <= self.next_folder_id <= i64::MAX
        &&& 1 <= self.next_note_id <= i64::MAX
        &&& 1 <= self.next_tag_id <= i64::MAX
        // folders: growing identities; a parent exists and is older than its child
        &&& ids_increasing(folder_ids(self.folders))
        &&& forall|i: int|
            0 <= i < self.folders.len() ==> {
                &&& #[trigger] self.folders[i].id < self.next_folder_id
                &&& self.folders[i].parent_id matches Some(p) ==> p < self.folders[i].id
                    && self.has_folder(p)
            }
        // notes: growing identities; a note's folder exists
        &&& ids_increasing(note_ids(self.notes))
        &&& forall|i: int|
            0 <= i < self.notes.len() ==> {
                &&& #[trigger] self.notes[i].id < self.next_note_id
                &&& self.notes[i].folder_id matches Some(f) ==> self.has_folder(f)
            }
        // tags: a vocabulary of distinct names
        &&& vocabulary_valid(self.tags, self.next_tag_id)
        // associations refer to existing notes and tags
        &&& self.links.finite()
        &&& forall|l: (i64, i64)| #[trigger]
            self.links.contains(l) ==> self.has_note(l.0) && self.has_tag(l.1)
        // preferences: one value per key
        &&& forall|i: int, j: int|
            0 <= i < j < self.prefs.len() ==> #[trigger] self.prefs[i].0 != #[trigger] self.prefs[j].0
    }

    /// The parent of folder `id`, if the folder exists and has one.
    pub open spec fn parent_of(self, id: i64) -> Option<i64> {
        if self.has_folder(id) {
            self.folders[choose|i: int|
                0 <= i < self.folders.len() && #[trigger] self.folders[i].id == id].parent_id
        } else {
            None
        }
    }

    /// Whether folder `x` is `root` or lies below it in the folder tree.
    pub open spec fn in_subtree(self, x: i64, root: i64) -> bool
        decreases x - root,
    {
        if x == root {
            true
        } else {
            match self.parent_of(x) {
                Some(p) => root <= p < x && self.in_subtree(p, root),
                None => false,
            }
        }
    }

    /// Whether note `id` exists and lies in a folder of the subtree at `root`.
    pub open spec fn note_under(self, id: i64, root: i64) -> bool {
        exists|i: int|
            0 <= i < self.notes.len() && #[trigger] self.notes[i].id == id && self.folder_under(
                self.notes[i].folder_id,
                root,
            )
    }

    /// Whether an optional folder reference points into the subtree at `root`.
    pub open spec fn folder_under(self, folder_id: Option<i64>, root: i64) -> bool {
        match folder_id {
            Some(f) => self.in_subtree(f, root),
            None => false,
        }
    }

    /// The names of the tags of note `id`, in vocabulary order.
    pub open spec fn tags_of(self, id: i64) -> Seq<Seq<char>> {
        vocabulary_names(self.tags.filter(self.tagged(id)))
    }

    /// The vocabulary entries associated with note `id`.
    pub open spec fn tagged(self, id: i64) -> spec_fn(TagV) -> bool {
        |t: TagV| self.links.contains((id, t.id))
    }

    /// Note row `n` as it is listed.
    pub open spec fn entry(self, n: NoteV) -> NoteEntryV {
        NoteEntryV {
            id: n.id,
            title: n.title,
            content: n.content,
            is_markdown: n.is_markdown,
            tags: self.tags_of(n.id),
            folder_id: n.folder_id,
        }
    }

    /// Every note, in creation order, with its tags.
    pub open spec fn listing(self) -> Seq<NoteEntryV> {
        self.notes.map_values(|n: NoteV| self.entry(n))
    }

    /// The listed notes that carry at least one tag whose name contains
    /// `fragment` (case-sensitive).
    pub open spec fn search(self, fragment: Seq<char>) -> Seq<NoteEntryV> {
        self.listing().filter(tag_matches(fragment))
    }

    /// The names of the vocabulary, in order of creation.
    pub open spec fn tag_names(self) -> Seq<Seq<char>> {
        vocabulary_names(self.tags)
    }

    /// A new folder appended with the next folder identity.
    pub open spec fn add_folder(self, name: Seq<char>, parent_id: Option<i64>) -> NotebookV {
        NotebookV {
            folders: self.folders.push(
                FolderV { id: self.next_folder_id as i64, name, parent_id },
            ),
            next_folder_id: self.next_folder_id + 1,
            ..self
        }
    }

    /// Folder `id` renamed, every other row kept.
    pub open spec fn rename_folder(self, id: i64, name: Seq<char>) -> NotebookV {
        NotebookV {
            folders: self.folders.map_values(
                |f: FolderV|
                    if f.id == id {
                        FolderV { name, ..f }
                    } else {
                        f
                    },
            ),
            ..self
        }
    }

    /// The folders of the subtree at `root` removed, with every note that
    /// lies in one of them and the associations of those notes.
    pub open spec fn delete_folder(self, root: i64) -> NotebookV {
        NotebookV {
            folders: self.folders.filter(self.folder_kept(root)),
            notes: self.notes.filter(self.note_kept(root)),
            links: self.links.filter(self.link_kept(root)),
            ..self
        }
    }

    /// The folders that survive deleting the subtree at `root`.
    pub open spec fn folder_kept(self, root: i64) -> spec_fn(FolderV) -> bool {
        |f: FolderV| !self.in_subtree(f.id, root)
    }

    /// The notes that survive deleting the subtree at `root`.
    pub open spec fn note_kept(self, root: i64) -> spec_fn(NoteV) -> bool {
        |n: NoteV| !self.folder_under(n.folder_id, root)
    }

    /// The associations that survive deleting the subtree at `root`.
    pub open spec fn link_kept(self, root: i64) -> spec_fn((i64, i64)) -> bool {
        |l: (i64, i64)| !self.note_under(l.0, root)
    }

    /// Note `id` removed with its associations; the vocabulary is kept.
    pub open spec fn delete_note(self, id: i64) -> NotebookV {
        NotebookV {
            notes: self.notes.filter(note_other_than(id)),
            links: self.links.filter(link_other_than(id)),
            ..self
        }
    }

    /// The tags of note `id` replaced by `names`: each name is made to exist in
    /// the vocabulary, and the note is associated with exactly those tags.
    pub open spec fn set_tags(self, id: i64, names: Seq<Seq<char>>) -> NotebookV {
        let tags = absorb(self.tags, self.next_tag_id, names);
        NotebookV {
            tags,
            next_tag_id: self.next_tag_id + tags.len() - self.tags.len(),
            links: Set::new(
                |l: (i64, i64)|
                    (self.links.contains(l) && l.0 != id) || (l.0 == id && exists|k: int|
                        0 <= k < names.len() && tag_named(tags, #[trigger] names[k], l.1)),
            ),
            ..self
        }
    }

    /// A new note appended with the next note identity, then given `names`.
    pub open spec fn add_note(
        self,
        title: Seq<char>,
        content: Seq<char>,
        is_markdown: bool,
        folder_id: Option<i64>,
        names: Seq<Seq<char>>,
    ) -> NotebookV {
        let id = self.next_note_id as i64;
        NotebookV {
            notes: self.notes.push(NoteV { id, title, content, is_markdown, folder_id }),
            next_note_id: self.next_note_id + 1,
            ..self
        }.set_tags(id, names)
    }

    /// Every field of note `id` overwritten, then its tags replaced by `names`.
    pub open spec fn update_note(
        self,
        id: i64,
        title: Seq<char>,
        content: Seq<char>,
        is_markdown: bool,
        folder_id: Option<i64>,
        names: Seq<Seq<char>>,
    ) -> NotebookV {
        NotebookV {
            notes: self.notes.map_values(
                |n: NoteV|
                    if n.id == id {
                        NoteV { id, title, content, is_markdown, folder_id }
                    } else {
                        n
                    },
            ),
            ..self
        }.set_tags(id, names)
    }

    /// Whether a note may be placed in `folder_id`.
    pub open spec fn folder_ok(self, folder_id: Option<i64>) -> bool {
        folder_id matches Some(f) ==> self.has_folder(f)
    }

    /// Whether enough tag identities remain for `n` new names.
    pub open spec fn tag_room(self, n: int) -> bool {
        self.next_tag_id + n <= i64::MAX
    }

    /// The value stored under `key`, if any.
    pub open spec fn pref(self, key: Seq<char>) -> Option<Seq<char>> {
        if self.has_pref(key) {
            Some(
                self.prefs[choose|i: int|
                    0 <= i < self.prefs.len() && #[trigger] self.prefs[i].0 == key].1,
            )
        } else {
            None
        }
    }

    /// `key` set to `value`: an existing pair is overwritten in place, else
    /// a new pair is appended.
    pub open spec fn set_pref(self, key: Seq<char>, value: Seq<char>) -> NotebookV {
        NotebookV {
            prefs: if self.has_pref(key) {
                self.prefs.map_values(
                    |p: (Seq<char>, Seq<char>)|
                        if p.0 == key {
                            (key, value)
                        } else {
                            p
                        },
                )
            } else {
                self.prefs.push((key, value))
            },
            ..self
        }
    }
}

} // verus!
