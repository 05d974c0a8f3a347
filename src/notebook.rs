//! The notebook store: its tables, and every query and mutation on them.
use crate::lemmas::{
    lemma_absorb, lemma_add_folder_valid, lemma_delete_folder_valid, lemma_delete_note_valid,
    lemma_filter_to_set, lemma_ids_unique, lemma_notes_replaced_valid, lemma_parent_of,
    lemma_rename_folder_at, lemma_rename_folder_valid, lemma_subtree_bounds, lemma_subtree_children,
    lemma_tag_named_unique, with_notes,
};
use crate::model::{
    absorb, assemble, folder_ids, tag_ids, has_substring, has_tag_named, ids_increasing, tag_matches, vocabulary_names, link_other_than, note_ids, note_other_than, tag_named,
    FolderV, NoteV, NotebookV, TagV,
};
use crate::rows::{
    entries_view, folders_view, names_view, notes_view, Note, prefs_view, tags_view, Folder, NoteRecord, Preference, StoreError, Tag,
};
use crate::load::{
    folder_id_list, folders_known, ids_ascending, keys_distinct, links_sound, names_distinct, next_id,
    note_id_list, parents_known, tag_id_list,
};
use crate::order::{
    lemma_name_le_total, lemma_name_le_transitive, name_le, names_in_order, names_sorted,
};
use crate::text::contains_fragment;
use vstd::prelude::*;

verus! {

broadcast use vstd::seq_lib::group_filter_ensures;

/// The store. The tables are kept in order of identity; `links` holds the
/// note/tag associations as `(note_id, tag_id)` pairs, each at most once.
pub struct Notebook {
    folders: Vec<Folder>,
    notes: Vec<NoteRecord>,
    tags: Vec<Tag>,
    links: Vec<(i64, i64)>,
    prefs: Vec<Preference>,
    next_folder_id: i64,
    next_note_id: i64,
    next_tag_id: i64,
}

impl View for Notebook {
    type V = NotebookV;

    closed spec fn view(&self) -> NotebookV {
        NotebookV {
            folders: folders_view(self.folders@),
            notes: notes_view(self.notes@),
            tags: tags_view(self.tags@),
            links: self.links@.to_set(),
            prefs: prefs_view(self.prefs@),
            next_folder_id: self.next_folder_id as int,
            next_note_id: self.next_note_id as int,
            next_tag_id: self.next_tag_id as int,
        }
    }
}

/// Whether `v` holds `x`.
fn contains_id(v: &Vec<i64>, x: i64) -> (r: bool)
    ensures
        r == v@.contains(x),
{
    let mut i: usize = 0;
    while i < v.len()
        invariant
            i <= v@.len(),
            forall|j: int| 0 <= j < i ==> v@[j] != x,
        decreases v@.len() - i,
    {
        if v[i] == x {
            assert(v@[i as int] == x);
            return true;
        }
        i += 1;
    }
    false
}

impl Notebook {
    /// The store is consistent and its association rows are distinct.
    pub closed spec fn wf(&self) -> bool {
        &&& self@.valid()
        &&& self.links@.no_duplicates()
    }

    /// An empty store.
    pub fn new() -> (r: Notebook)
        ensures
            r.wf(),
            r@.folders.len() == 0,
            r@.notes.len() == 0,
            r@.tags.len() == 0,
            r@.links.is_empty(),
            r@.prefs.len() == 0,
            r@.next_folder_id == 1,
            r@.next_note_id == 1,
            r@.next_tag_id == 1,
    {
        let r = Notebook {
            folders: Vec::new(),
            notes: Vec::new(),
            tags: Vec::new(),
            links: Vec::new(),
            prefs: Vec::new(),
            next_folder_id: 1,
            next_note_id: 1,
            next_tag_id: 1,
        };
        assert(r@.links =~= Set::empty());
        r
    }

    /// The index of folder `id` in its table.
    fn find_folder(&self, id: i64) -> (r: Option<usize>)
        ensures
            match r {
                Some(i) => i < self.folders@.len() && self.folders@[i as int].id == id && self@.has_folder(id),
                None => !self@.has_folder(id),
            },
    {
        let mut i: usize = 0;
        while i < self.folders.len()
            invariant
                i <= self.folders@.len(),
                forall|j: int| 0 <= j < i ==> self.folders@[j].id != id,
            decreases self.folders@.len() - i,
        {
            if self.folders[i].id == id {
                assert(self@.folders[i as int].id == id);
                return Some(i);
            }
            i += 1;
        }
        proof {
            if self@.has_folder(id) {
                let j = choose|j: int| 0 <= j < self@.folders.len() && #[trigger] self@.folders[j].id == id;
                assert(self.folders@[j].id == id);
            }
        }
        None
    }

    /// Every folder with its parent pointer, in order of identity.
    pub fn list_folders(&self) -> (r: Vec<Folder>)
        ensures
            folders_view(r@) == self@.folders,
    {
        let mut r: Vec<Folder> = Vec::new();
        let mut i: usize = 0;
        while i < self.folders.len()
            invariant
                i <= self.folders@.len(),
                folders_view(r@) == self@.folders.take(i as int),
            decreases self.folders@.len() - i,
        {
            let ghost r0 = r@;
            r.push(self.folders[i].duplicate());
            proof {
                assert(r@ == r0.push(r@.last()));
                assert(folders_view(r@) =~= folders_view(r0).push(self@.folders[i as int]));
            }
            i += 1;
            assert(folders_view(r@) =~= self@.folders.take(i as int));
        }
        assert(self@.folders.take(i as int) =~= self@.folders);
        r
    }

    /// Adds a folder named `name` under `parent_id` (or at the top level) and
    /// returns its identity.
    pub fn create_folder(&mut self, name: String, parent_id: Option<i64>) -> (r: Result<
        i64,
        StoreError,
    >)
        requires
            old(self).wf(),
        ensures
            final(self).wf(),
            !old(self)@.folder_ok(parent_id) ==> r == Err::<i64, StoreError>(
                StoreError::FolderNotFound,
            ),
            old(self)@.folder_ok(parent_id) && old(self)@.next_folder_id == i64::MAX ==> r
                == Err::<i64, StoreError>(StoreError::IdsExhausted),
            old(self)@.folder_ok(parent_id) && old(self)@.next_folder_id < i64::MAX ==> r
                == Ok::<i64, StoreError>(old(self)@.next_folder_id as i64) && final(self)@ == old(
                self,
            )@.add_folder(name@, parent_id),
            r is Err ==> final(self)@ == old(self)@,
    {
        if let Some(p) = parent_id {
            if self.find_folder(p).is_none() {
                return Err(StoreError::FolderNotFound);
            }
        }
        if self.next_folder_id == i64::MAX {
            return Err(StoreError::IdsExhausted);
        }
        let id = self.next_folder_id;
        let ghost pre = self@;
        self.folders.push(Folder { id, name, parent_id });
        self.next_folder_id = id + 1;
        proof {
            assert(self@.folders =~= pre.folders.push(FolderV { id, name: name@, parent_id }));
            assert(self@ == pre.add_folder(name@, parent_id));
            lemma_add_folder_valid(pre, name@, parent_id);
        }
        Ok(id)
    }

    /// Gives folder `id` the name `name`; nothing else changes.
    pub fn rename_folder(&mut self, id: i64, name: String) -> (r: Result<(), StoreError>)
        requires
            old(self).wf(),
        ensures
            final(self).wf(),
            old(self)@.has_folder(id) ==> r == Ok::<(), StoreError>(()) && final(self)@ == old(
                self,
            )@.rename_folder(id, name@),
            !old(self)@.has_folder(id) ==> r == Err::<(), StoreError>(StoreError::FolderNotFound)
                && final(self)@ == old(self)@,
    {
        match self.find_folder(id) {
            None => Err(StoreError::FolderNotFound),
            Some(i) => {
                let ghost pre = self@;
                let parent_id = self.folders[i].parent_id;
                self.folders.set(i, Folder { id, name, parent_id });
                proof {
                    lemma_rename_folder_at(pre, i as int, name@);
                    assert(self@.folders =~= pre.rename_folder(id, name@).folders);
                    assert(self@ == pre.rename_folder(id, name@));
                    lemma_rename_folder_valid(pre, id, name@);
                }
                Ok(())
            },
        }
    }

    /// Appends to `out` the identities of the subtree at `root`, children
    /// before their parent.
    fn collect_subtree(&self, root: i64, out: &mut Vec<i64>)
        requires
            self.wf(),
            self@.has_folder(root),
        ensures
            forall|x: i64|
                #[trigger] final(out)@.contains(x) <==> old(out)@.contains(x) || (self@.has_folder(x)
                    && self@.in_subtree(x, root)),
        decreases self@.next_folder_id - root,
    {
        let ghost s = self@;
        let ghost start = out@;
        proof {
            let k = choose|k: int| 0 <= k < s.folders.len() && #[trigger] s.folders[k].id == root;
            assert(s.folders[k].id < s.next_folder_id);
        }
        let mut i: usize = 0;
        while i < self.folders.len()
            invariant
                self@ == s,
                self.wf(),
                s.has_folder(root),
                i <= self.folders@.len(),
                forall|x: i64|
                    #[trigger] out@.contains(x) <==> start.contains(x) || (s.has_folder(x) && exists|j: int|
                        0 <= j < i && s.folders[j].parent_id == Some(root) && s.in_subtree(
                            x,
                            #[trigger] s.folders[j].id,
                        )),
            decreases self.folders@.len() - i,
        {
            let ghost before = out@;
            if self.folders[i].parent_id == Some(root) {
                let child = self.folders[i].id;
                proof {
                    assert(s.folders[i as int].id == child);
                    lemma_parent_of(s, i as int);
                    assert(s.folders[i as int].id < s.next_folder_id);
                }
                self.collect_subtree(child, out);
            }
            proof {
                assert forall|x: i64|
                    #[trigger] out@.contains(x) <==> start.contains(x) || (s.has_folder(x) && exists|j: int|
                        0 <= j < i + 1 && s.folders[j].parent_id == Some(root) && s.in_subtree(
                            x,
                            #[trigger] s.folders[j].id,
                        )) by {
                    if s.has_folder(x) && s.folders[i as int].parent_id == Some(root) && s.in_subtree(
                        x,
                        s.folders[i as int].id,
                    ) {
                        assert(out@.contains(x));
                    }
                }
            }
            i += 1;
        }
        let ghost mid = out@;
        out.push(root);
        proof {
            assert forall|x: i64| #[trigger] out@.contains(x) <==> mid.contains(x) || x == root by {
                if mid.contains(x) {
                    let k = choose|k: int| 0 <= k < mid.len() && mid[k] == x;
                    assert(out@[k] == x);
                }
                if x == root {
                    assert(out@[mid.len() as int] == x);
                }
            }
            assert forall|x: i64|
                #[trigger] out@.contains(x) <==> start.contains(x) || (s.has_folder(x) && s.in_subtree(
                    x,
                    root,
                )) by {
                if s.has_folder(x) {
                    lemma_subtree_children(s, x, root);
                }
                if x == root {
                    assert(s.in_subtree(x, root));
                }
            }
        }
    }

    /// Deletes folder `root` with every folder below it, every note in one of
    /// those folders, and the tag associations of those notes. Children are
    /// visited before their parent. A missing folder leaves the store as it is.
    pub fn delete_folder(&mut self, root: i64)
        requires
            old(self).wf(),
        ensures
            final(self).wf(),
            final(self)@ == old(self)@.delete_folder(root),
    {
        let ghost s = self@;
        let mut doomed: Vec<i64> = Vec::new();
        if self.find_folder(root).is_some() {
            self.collect_subtree(root, &mut doomed);
        }
        proof {
            assert forall|x: i64| s.has_folder(x) && s.in_subtree(x, root) implies s.has_folder(root) by {
                if x != root {
                    lemma_subtree_bounds(s, x, root);
                }
            }
        }
        // folders
        let mut folders: Vec<Folder> = Vec::new();
        let mut i: usize = 0;
        while i < self.folders.len()
            invariant
                self@ == s,
                i <= self.folders@.len(),
                forall|x: i64| #[trigger] doomed@.contains(x) <==> s.has_folder(x) && s.in_subtree(x, root),
                folders_view(folders@) == s.folders.take(i as int).filter(s.folder_kept(root)),
            decreases self.folders@.len() - i,
        {
            let ghost before = folders@;
            proof {
                assert(s.folders[i as int].id == self.folders@[i as int].id);
                assert(s.has_folder(self.folders@[i as int].id));
                assert(s.folders.take(i + 1) =~= s.folders.take(i as int).push(s.folders[i as int]));
                s.folders.take(i as int).lemma_filter_push(s.folders[i as int], s.folder_kept(root));
            }
            if !contains_id(&doomed, self.folders[i].id) {
                folders.push(self.folders[i].duplicate());
                assert(folders_view(folders@) =~= folders_view(before).push(s.folders[i as int]));
            }
            i += 1;
        }
        assert(s.folders.take(i as int) =~= s.folders);
        // notes, remembering the identities of those that go
        let mut notes: Vec<NoteRecord> = Vec::new();
        let mut gone: Vec<i64> = Vec::new();
        let mut i: usize = 0;
        while i < self.notes.len()
            invariant
                self@ == s,
                s.valid(),
                i <= self.notes@.len(),
                forall|x: i64| #[trigger] doomed@.contains(x) <==> s.has_folder(x) && s.in_subtree(x, root),
                notes_view(notes@) == s.notes.take(i as int).filter(s.note_kept(root)),
                forall|x: i64| #[trigger] gone@.contains(x) <==> exists|j: int|
                    0 <= j < i && #[trigger] s.notes[j].id == x && s.folder_under(s.notes[j].folder_id, root),
            decreases self.notes@.len() - i,
        {
            let ghost before = notes@;
            let ghost gone_before = gone@;
            let n = &self.notes[i];
            proof {
                assert(s.notes[i as int] == n@);
                assert(s.notes.take(i + 1) =~= s.notes.take(i as int).push(s.notes[i as int]));
                s.notes.take(i as int).lemma_filter_push(s.notes[i as int], s.note_kept(root));
                assert(s.notes[i as int].id < s.next_note_id);
                if let Some(f) = n.folder_id {
                    assert(s.has_folder(f));
                }
            }
            let under = match n.folder_id {
                Some(f) => contains_id(&doomed, f),
                None => false,
            };
            if under {
                gone.push(n.id);
            } else {
                notes.push(n.duplicate());
                assert(notes_view(notes@) =~= notes_view(before).push(s.notes[i as int]));
            }
            proof {
                assert(under == s.folder_under(s.notes[i as int].folder_id, root));
                assert forall|x: i64| #[trigger] gone@.contains(x) <==> gone_before.contains(x) || (under
                    && x == n.id) by {
                    if under {
                        assert(gone@ == gone_before.push(n.id));
                        if gone_before.contains(x) {
                            let k = choose|k: int| 0 <= k < gone_before.len() && gone_before[k] == x;
                            assert(gone@[k] == x);
                        }
                        if x == n.id {
                            assert(gone@[gone_before.len() as int] == x);
                        }
                    }
                }
                assert forall|x: i64| #[trigger] gone@.contains(x) <==> exists|j: int|
                    0 <= j < i + 1 && #[trigger] s.notes[j].id == x && s.folder_under(s.notes[j].folder_id, root) by {
                    if exists|j: int|
                        0 <= j < i + 1 && #[trigger] s.notes[j].id == x && s.folder_under(s.notes[j].folder_id, root) {
                        let j = choose|j: int|
                            0 <= j < i + 1 && #[trigger] s.notes[j].id == x && s.folder_under(s.notes[j].folder_id, root);
                        if j < i {
                            assert(gone_before.contains(x));
                        }
                    }
                }
            }
            i += 1;
        }
        assert(s.notes.take(i as int) =~= s.notes);
        // associations of the notes that went
        let mut links: Vec<(i64, i64)> = Vec::new();
        let mut i: usize = 0;
        while i < self.links.len()
            invariant
                self@ == s,
                self.links@.no_duplicates(),
                i <= self.links@.len(),
                forall|x: i64| #[trigger] gone@.contains(x) <==> s.note_under(x, root),
                links@ == self.links@.take(i as int).filter(s.link_kept(root)),
                links@.no_duplicates(),
                forall|l: (i64, i64)| #[trigger] links@.contains(l) ==> self.links@.take(i as int).contains(l),
            decreases self.links@.len() - i,
        {
            let l = self.links[i];
            proof {
                assert(self.links@.take(i + 1) =~= self.links@.take(i as int).push(l));
                assert forall|m: (i64, i64)| #[trigger] self.links@.take(i + 1).contains(m) <== self.links@.take(i as int).contains(m) by {
                    if self.links@.take(i as int).contains(m) {
                        let k = choose|k: int| 0 <= k < i && self.links@.take(i as int)[k] == m;
                        assert(self.links@.take(i + 1)[k] == m);
                    }
                }
                if self.links@.take(i as int).contains(l) {
                    let k = choose|k: int| 0 <= k < i && self.links@.take(i as int)[k] == l;
                    assert(self.links@[k] == self.links@[i as int]);
                }
            }
            let ghost lb = links@;
            proof {
                self.links@.take(i as int).lemma_filter_push(l, s.link_kept(root));
            }
            if !contains_id(&gone, l.0) {
                links.push(l);
                proof {
                    if lb.contains(l) {
                        assert(self.links@.take(i as int).contains(l));
                        let k = choose|k: int| 0 <= k < i && self.links@.take(i as int)[k] == l;
                        assert(self.links@[k] == self.links@[i as int]);
                    }
                    assert forall|a: int, b: int| 0 <= a < links@.len() && 0 <= b < links@.len() && a != b implies links@[a] != links@[b] by {
                        if b == lb.len() {
                            assert(lb[a] == links@[a]);
                        } else if a == lb.len() {
                            assert(lb[b] == links@[b]);
                        } else {
                            assert(lb[a] != lb[b]);
                        }
                    }
                    assert forall|m: (i64, i64)| #[trigger] links@.contains(m) implies self.links@.take(i + 1).contains(m) by {
                        let k = choose|k: int| 0 <= k < links@.len() && links@[k] == m;
                        if k < lb.len() {
                            assert(lb[k] == m);
                            assert(lb.contains(m));
                        } else {
                            assert(self.links@.take(i + 1)[i as int] == l);
                        }
                    }
                }
            }
            i += 1;
        }
        assert(self.links@.take(i as int) =~= self.links@);
        proof {
            lemma_filter_to_set(self.links@, s.link_kept(root));
        }
        self.folders = folders;
        self.notes = notes;
        self.links = links;
        proof {
            assert(self@ =~= s.delete_folder(root));
            lemma_delete_folder_valid(s, root);
        }
    }

    /// The index of the vocabulary entry called `name`.
    fn find_tag(&self, name: &String) -> (r: Option<usize>)
        ensures
            match r {
                Some(i) => i < self.tags@.len() && self@.tags[i as int].name == name@,
                None => !has_tag_named(self@.tags, name@),
            },
    {
        let mut i: usize = 0;
        while i < self.tags.len()
            invariant
                i <= self.tags@.len(),
                forall|j: int| 0 <= j < i ==> self@.tags[j].name != name@,
            decreases self.tags@.len() - i,
        {
            if self.tags[i].name == *name {
                return Some(i);
            }
            i += 1;
        }
        None
    }

    /// Makes sure the vocabulary has an entry called `name` and returns its
    /// identity.
    fn ensure_tag(&mut self, name: &String) -> (id: i64)
        requires
            old(self).wf(),
            old(self)@.next_tag_id < i64::MAX,
        ensures
            final(self).wf(),
            tag_named(final(self)@.tags, name@, id),
            has_tag_named(old(self)@.tags, name@) ==> final(self)@ == old(self)@,
            !has_tag_named(old(self)@.tags, name@) ==> final(self)@ == (NotebookV {
                tags: old(self)@.tags.push(TagV { id: old(self)@.next_tag_id as i64, name: name@ }),
                next_tag_id: old(self)@.next_tag_id + 1,
                ..old(self)@
            }),
    {
        match self.find_tag(name) {
            Some(i) => self.tags[i].id,
            None => {
                let ghost s = self@;
                let id = self.next_tag_id;
                self.tags.push(Tag { id, name: name.clone() });
                self.next_tag_id = id + 1;
                proof {
                    let t = NotebookV {
                        tags: s.tags.push(TagV { id, name: name@ }),
                        next_tag_id: s.next_tag_id + 1,
                        ..s
                    };
                    assert(self@.tags =~= t.tags);
                    assert(self@ == t);
                    lemma_absorb(s.tags, s.next_tag_id, seq![name@]);
                    assert(seq![name@].drop_last() =~= Seq::<Seq<char>>::empty());
                    assert(absorb(s.tags, s.next_tag_id, Seq::<Seq<char>>::empty()) == s.tags);
                    assert(seq![name@].last() == name@);
                    assert(absorb(s.tags, s.next_tag_id, seq![name@]) == t.tags);
                    assert(t.tags[s.tags.len() as int].name == name@);
                    assert forall|g: i64| s.has_tag(g) implies #[trigger] t.has_tag(g) by {
                        let i = choose|i: int| 0 <= i < s.tags.len() && #[trigger] s.tags[i].id == g;
                        assert(t.tags[i].id == g);
                    }
                    assert forall|n: i64| s.has_note(n) implies #[trigger] t.has_note(n) by {}
                    assert forall|f: i64| s.has_folder(f) implies #[trigger] t.has_folder(f) by {}
                    assert forall|i: int| 0 <= i < t.folders.len() implies {
                        &&& #[trigger] t.folders[i].id < t.next_folder_id
                        &&& t.folders[i].parent_id matches Some(p) ==> p < t.folders[i].id && t.has_folder(p)
                    } by {
                        assert(s.folders[i].id < s.next_folder_id);
                    }
                    assert forall|i: int| 0 <= i < t.notes.len() implies {
                        &&& #[trigger] t.notes[i].id < t.next_note_id
                        &&& t.notes[i].folder_id matches Some(f) ==> t.has_folder(f)
                    } by {
                        assert(s.notes[i].id < s.next_note_id);
                    }
                }
                id
            },
        }
    }

    /// Associates note `note` with tag `tag`, once.
    fn add_link(&mut self, note: i64, tag: i64)
        requires
            old(self).wf(),
            old(self)@.has_note(note),
            old(self)@.has_tag(tag),
        ensures
            final(self).wf(),
            final(self)@ == (NotebookV { links: old(self)@.links.insert((note, tag)), ..old(self)@ }),
    {
        let ghost s = self@;
        let mut i: usize = 0;
        while i < self.links.len()
            invariant
                self@ == s,
                self.wf(),
                i <= self.links@.len(),
                forall|j: int| 0 <= j < i ==> self.links@[j] != (note, tag),
            decreases self.links@.len() - i,
        {
            if self.links[i].0 == note && self.links[i].1 == tag {
                proof {
                    assert(self.links@[i as int] == (note, tag));
                    assert(s.links.contains((note, tag)));
                    assert(s.links.insert((note, tag)) =~= s.links);
                }
                return;
            }
            i += 1;
        }
        let ghost lb = self.links@;
        self.links.push((note, tag));
        proof {
            assert forall|m: (i64, i64)| #[trigger] self.links@.contains(m) <==> lb.contains(m) || m == (note, tag) by {
                if lb.contains(m) {
                    let k = choose|k: int| 0 <= k < lb.len() && lb[k] == m;
                    assert(self.links@[k] == m);
                }
                if m == (note, tag) {
                    assert(self.links@[lb.len() as int] == m);
                }
            }
            assert(self@.links =~= s.links.insert((note, tag)));
            assert(self@ == (NotebookV { links: s.links.insert((note, tag)), ..s }));
        }
    }

    /// Removes every association of note `note`.
    fn drop_links_of(&mut self, note: i64)
        requires
            old(self).wf(),
        ensures
            final(self).wf(),
            final(self)@ == (NotebookV {
                links: old(self)@.links.filter(link_other_than(note)),
                ..old(self)@
            }),
    {
        let ghost s = self@;
        let mut links: Vec<(i64, i64)> = Vec::new();
        let mut i: usize = 0;
        while i < self.links.len()
            invariant
                self@ == s,
                self.links@.no_duplicates(),
                i <= self.links@.len(),
                links@.no_duplicates(),
                forall|l: (i64, i64)| #[trigger] links@.contains(l) <==> (exists|j: int| 0 <= j < i && self.links@[j] == l) && l.0 != note,
            decreases self.links@.len() - i,
        {
            let l = self.links[i];
            let ghost lb = links@;
            if l.0 != note {
                links.push(l);
                proof {
                    if lb.contains(l) {
                        let j = choose|j: int| 0 <= j < i && self.links@[j] == l;
                        assert(self.links@[j] == self.links@[i as int]);
                    }
                    assert forall|a: int, b: int| 0 <= a < links@.len() && 0 <= b < links@.len() && a != b implies links@[a] != links@[b] by {
                        if b == lb.len() {
                            assert(lb[a] == links@[a]);
                        } else if a == lb.len() {
                            assert(lb[b] == links@[b]);
                        } else {
                            assert(lb[a] != lb[b]);
                        }
                    }
                }
            }
            proof {
                assert forall|m: (i64, i64)| #[trigger] links@.contains(m) <==> (exists|j: int| 0 <= j < i + 1 && self.links@[j] == m) && m.0 != note by {
                    if links@.contains(m) && m != l {
                        let k = choose|k: int| 0 <= k < links@.len() && links@[k] == m;
                        assert(lb[k] == m);
                        assert(lb.contains(m));
                    }
                    if (exists|j: int| 0 <= j < i + 1 && self.links@[j] == m) && m.0 != note {
                        if m == l {
                            assert(links@[links@.len() - 1] == m);
                        } else {
                            assert(lb.contains(m));
                            let k = choose|k: int| 0 <= k < lb.len() && lb[k] == m;
                            assert(links@[k] == m);
                        }
                    }
                }
            }
            i += 1;
        }
        self.links = links;
        proof {
            assert(self@.links =~= s.links.filter(link_other_than(note)));
            let t = NotebookV { links: s.links.filter(link_other_than(note)), ..s };
            assert(self@ == t);
            assert forall|i: int| 0 <= i < t.folders.len() implies {
                &&& #[trigger] t.folders[i].id < t.next_folder_id
                &&& t.folders[i].parent_id matches Some(p) ==> p < t.folders[i].id && t.has_folder(p)
            } by {
                assert(s.folders[i].id < s.next_folder_id);
            }
            assert forall|i: int| 0 <= i < t.notes.len() implies {
                &&& #[trigger] t.notes[i].id < t.next_note_id
                &&& t.notes[i].folder_id matches Some(f) ==> t.has_folder(f)
            } by {
                assert(s.notes[i].id < s.next_note_id);
            }
            assert forall|l: (i64, i64)| #[trigger] t.links.contains(l) implies t.has_note(l.0) && t.has_tag(l.1) by {
                assert(s.links.contains(l));
                assert(s.has_note(l.0) && s.has_tag(l.1));
                let a = choose|a: int| 0 <= a < s.notes.len() && #[trigger] s.notes[a].id == l.0;
                let b = choose|b: int| 0 <= b < s.tags.len() && #[trigger] s.tags[b].id == l.1;
                assert(t.notes[a].id == l.0 && t.tags[b].id == l.1);
            }
        }
    }

    /// The Tag Normalizer: the tags of note `note` become exactly `names`.
    /// Each distinct name is looked up in the vocabulary, or added to it once;
    /// the note's associations are then replaced as a whole.
    fn replace_tags(&mut self, note: i64, names: &Vec<String>)
        requires
            old(self).wf(),
            old(self)@.has_note(note),
            old(self)@.tag_room(names@.len() as int),
        ensures
            final(self).wf(),
            final(self)@ == old(self)@.set_tags(note, names_view(names@)),
    {
        let ghost s = self@;
        let ghost ns = names_view(names@);
        self.drop_links_of(note);
        let mut k: usize = 0;
        while k < names.len()
            invariant
                s.valid(),
                s.has_note(note),
                s.tag_room(ns.len() as int),
                ns == names_view(names@),
                self.wf(),
                0 <= k <= ns.len(),
                self@.folders == s.folders,
                self@.notes == s.notes,
                self@.prefs == s.prefs,
                self@.next_folder_id == s.next_folder_id,
                self@.next_note_id == s.next_note_id,
                self@.tags == absorb(s.tags, s.next_tag_id, ns.take(k as int)),
                self@.next_tag_id == s.next_tag_id + self@.tags.len() - s.tags.len(),
                forall|l: (i64, i64)| #[trigger] self@.links.contains(l) <==> (s.links.contains(l) && l.0 != note) || (l.0 == note
                    && exists|j: int| 0 <= j < k && tag_named(self@.tags, #[trigger] ns[j], l.1)),
            decreases ns.len() - k,
        {
            let ghost before = self@;
            proof {
                lemma_absorb(s.tags, s.next_tag_id, ns.take(k as int));
                assert forall|j: int| 0 <= j < k implies has_tag_named(before.tags, #[trigger] ns[j]) by {
                    assert(ns.take(k as int)[j] == ns[j]);
                }
            }
            let id = self.ensure_tag(&names[k]);
            let ghost mid = self@;
            proof {
                assert(ns[k as int] == names@[k as int]@);
                assert(ns.take(k + 1).drop_last() =~= ns.take(k as int));
                assert(ns.take(k + 1).last() == ns[k as int]);
                assert(mid.tags == absorb(s.tags, s.next_tag_id, ns.take(k + 1)));
                assert(mid.has_note(note)) by {
                    let i = choose|i: int| 0 <= i < s.notes.len() && #[trigger] s.notes[i].id == note;
                    assert(mid.notes[i].id == note);
                }
                let ti = choose|i: int| 0 <= i < mid.tags.len() && #[trigger] mid.tags[i].name == ns[k as int] && mid.tags[i].id == id;
                assert(mid.tags[ti].id == id);
                // the identity of every earlier name is unchanged
                assert forall|j: int, t: i64| 0 <= j < k implies #[trigger] tag_named(mid.tags, ns[j], t) == tag_named(before.tags, ns[j], t) by {
                    if mid.tags != before.tags {
                        let q = choose|q: int| 0 <= q < before.tags.len() && #[trigger] before.tags[q].name == ns[j];
                        assert(mid.tags[q] == before.tags[q]);
                        if tag_named(mid.tags, ns[j], t) {
                            let i = choose|i: int| 0 <= i < mid.tags.len() && #[trigger] mid.tags[i].name == ns[j] && mid.tags[i].id == t;
                            if i == before.tags.len() {
                                assert(has_tag_named(before.tags, ns[k as int]));
                            } else {
                                assert(mid.tags[i] == before.tags[i]);
                            }
                        }
                        if tag_named(before.tags, ns[j], t) {
                            let i = choose|i: int| 0 <= i < before.tags.len() && #[trigger] before.tags[i].name == ns[j] && before.tags[i].id == t;
                            assert(mid.tags[i] == before.tags[i]);
                        }
                    }
                }
            }
            self.add_link(note, id);
            proof {
                assert forall|l: (i64, i64)| #[trigger] self@.links.contains(l) <==> (s.links.contains(l) && l.0 != note) || (l.0 == note
                    && exists|j: int| 0 <= j < k + 1 && tag_named(self@.tags, #[trigger] ns[j], l.1)) by {
                    if l.0 == note && exists|j: int| 0 <= j < k + 1 && tag_named(self@.tags, #[trigger] ns[j], l.1) {
                        let j = choose|j: int| 0 <= j < k + 1 && tag_named(self@.tags, #[trigger] ns[j], l.1);
                        if j == k {
                            lemma_absorb(s.tags, s.next_tag_id, ns.take(k + 1));
                            lemma_tag_named_unique(mid.tags, mid.next_tag_id, ns[j], l.1, id);
                        }
                    }
                    if l == (note, id) {
                        assert(tag_named(self@.tags, ns[k as int], l.1));
                    }
                }
            }
            k += 1;
        }
        proof {
            assert(ns.take(ns.len() as int) =~= ns);
            assert(self@.links =~= s.set_tags(note, ns).links);
            assert(self@ == s.set_tags(note, ns));
        }
    }

    /// The index of note `id` in its table.
    fn find_note(&self, id: i64) -> (r: Option<usize>)
        ensures
            match r {
                Some(i) => i < self.notes@.len() && self@.notes[i as int].id == id && self@.has_note(id),
                None => !self@.has_note(id),
            },
    {
        let mut i: usize = 0;
        while i < self.notes.len()
            invariant
                i <= self.notes@.len(),
                forall|j: int| 0 <= j < i ==> self@.notes[j].id != id,
            decreases self.notes@.len() - i,
        {
            if self.notes[i].id == id {
                assert(self@.notes[i as int].id == id);
                return Some(i);
            }
            i += 1;
        }
        None
    }

    /// Whether `folder_id` is absent or names an existing folder.
    fn folder_ok(&self, folder_id: Option<i64>) -> (r: bool)
        ensures
            r == self@.folder_ok(folder_id),
    {
        match folder_id {
            Some(f) => self.find_folder(f).is_some(),
            None => true,
        }
    }

    /// Whether `n` more tags can still be given identities.
    fn tag_room(&self, n: usize) -> (r: bool)
        requires
            self.wf(),
        ensures
            r == self@.tag_room(n as int),
    {
        (n as u64) <= (i64::MAX - self.next_tag_id) as u64
    }

    /// Adds a note with the given fields and tags (duplicate names count
    /// once) and returns its identity. The note is refused when its folder
    /// does not exist, and when the note table has no identity left or fewer
    /// tag identities remain than names are given.
    pub fn create_note(
        &mut self,
        title: String,
        content: String,
        is_markdown: bool,
        folder_id: Option<i64>,
        tags: Vec<String>,
    ) -> (r: Result<i64, StoreError>)
        requires
            old(self).wf(),
        ensures
            final(self).wf(),
            !old(self)@.folder_ok(folder_id) ==> r == Err::<i64, StoreError>(
                StoreError::FolderNotFound,
            ),
            old(self)@.folder_ok(folder_id) && (old(self)@.next_note_id == i64::MAX || !old(
                self,
            )@.tag_room(tags@.len() as int)) ==> r == Err::<i64, StoreError>(
                StoreError::IdsExhausted,
            ),
            old(self)@.folder_ok(folder_id) && old(self)@.next_note_id < i64::MAX && old(
                self,
            )@.tag_room(tags@.len() as int) ==> r == Ok::<i64, StoreError>(
                old(self)@.next_note_id as i64,
            ) && final(self)@ == old(self)@.add_note(
                title@,
                content@,
                is_markdown,
                folder_id,
                names_view(tags@),
            ),
            r is Err ==> final(self)@ == old(self)@,
    {
        if !self.folder_ok(folder_id) {
            return Err(StoreError::FolderNotFound);
        }
        if self.next_note_id == i64::MAX || !self.tag_room(tags.len()) {
            return Err(StoreError::IdsExhausted);
        }
        let ghost s = self@;
        let id = self.next_note_id;
        let ghost row = NoteV { id, title: title@, content: content@, is_markdown, folder_id };
        self.notes.push(NoteRecord { id, title, content, is_markdown, folder_id });
        self.next_note_id = id + 1;
        proof {
            let notes = s.notes.push(row);
            assert(self@.notes =~= notes);
            assert(self@ == with_notes(s, notes, s.next_note_id + 1));
            assert(ids_increasing(note_ids(notes))) by {
                assert forall|i: int, j: int| 0 <= i < j < note_ids(notes).len() implies note_ids(notes)[i] < note_ids(notes)[j] by {
                    if j < s.notes.len() {
                        assert(note_ids(s.notes)[i] < note_ids(s.notes)[j]);
                    } else {
                        assert(s.notes[i].id < s.next_note_id);
                    }
                }
            }
            assert forall|i: int| 0 <= i < notes.len() implies {
                &&& #[trigger] notes[i].id < s.next_note_id + 1
                &&& notes[i].folder_id matches Some(f) ==> s.has_folder(f)
            } by {
                if i < s.notes.len() {
                    assert(s.notes[i].id < s.next_note_id);
                }
            }
            assert forall|l: (i64, i64)| #[trigger] s.links.contains(l) implies exists|i: int|
                0 <= i < notes.len() && #[trigger] notes[i].id == l.0 by {
                assert(s.has_note(l.0));
                let k = choose|k: int| 0 <= k < s.notes.len() && #[trigger] s.notes[k].id == l.0;
                assert(notes[k].id == l.0);
            }
            lemma_notes_replaced_valid(s, notes, s.next_note_id + 1);
            assert(self@.notes[s.notes.len() as int].id == id);
        }
        self.replace_tags(id, &tags);
        Ok(id)
    }

    /// Overwrites every field of note `id` and replaces its tags by `tags`
    /// (duplicate names count once). Refused, in this order, when the note
    /// does not exist, when the folder does not exist, and when fewer tag
    /// identities remain than names are given.
    pub fn update_note(
        &mut self,
        id: i64,
        title: String,
        content: String,
        is_markdown: bool,
        folder_id: Option<i64>,
        tags: Vec<String>,
    ) -> (r: Result<(), StoreError>)
        requires
            old(self).wf(),
        ensures
            final(self).wf(),
            !old(self)@.has_note(id) ==> r == Err::<(), StoreError>(StoreError::NoteNotFound),
            old(self)@.has_note(id) && !old(self)@.folder_ok(folder_id) ==> r == Err::<
                (),
                StoreError,
            >(StoreError::FolderNotFound),
            old(self)@.has_note(id) && old(self)@.folder_ok(folder_id) && !old(self)@.tag_room(
                tags@.len() as int,
            ) ==> r == Err::<(), StoreError>(StoreError::IdsExhausted),
            old(self)@.has_note(id) && old(self)@.folder_ok(folder_id) && old(self)@.tag_room(
                tags@.len() as int,
            ) ==> r == Ok::<(), StoreError>(()) && final(self)@ == old(self)@.update_note(
                id,
                title@,
                content@,
                is_markdown,
                folder_id,
                names_view(tags@),
            ),
            r is Err ==> final(self)@ == old(self)@,
    {
        let i = match self.find_note(id) {
            Some(i) => i,
            None => return Err(StoreError::NoteNotFound),
        };
        if !self.folder_ok(folder_id) {
            return Err(StoreError::FolderNotFound);
        }
        if !self.tag_room(tags.len()) {
            return Err(StoreError::IdsExhausted);
        }
        let ghost s = self@;
        let ghost row = NoteV { id, title: title@, content: content@, is_markdown, folder_id };
        self.notes.set(i, NoteRecord { id, title, content, is_markdown, folder_id });
        proof {
            let notes = s.notes.update(i as int, row);
            assert(self@.notes =~= notes);
            assert(self@ == with_notes(s, notes, s.next_note_id));
            lemma_ids_unique(note_ids(s.notes), i as int);
            assert forall|j: int| 0 <= j < s.notes.len() && j != i implies s.notes[j].id != id by {
                assert(note_ids(s.notes)[j] == s.notes[j].id);
            }
            let u = s.update_note(id, title@, content@, is_markdown, folder_id, Seq::empty());
            let inner = NotebookV {
                notes: s.notes.map_values(
                    |n: NoteV|
                        if n.id == id {
                            NoteV { id, title: title@, content: content@, is_markdown, folder_id }
                        } else {
                            n
                        },
                ),
                ..s
            };
            assert(inner.notes =~= notes);
            assert(note_ids(notes) =~= note_ids(s.notes));
            assert forall|k: int| 0 <= k < notes.len() implies {
                &&& #[trigger] notes[k].id < s.next_note_id
                &&& notes[k].folder_id matches Some(f) ==> s.has_folder(f)
            } by {
                assert(s.notes[k].id < s.next_note_id);
            }
            assert forall|l: (i64, i64)| #[trigger] s.links.contains(l) implies exists|k: int|
                0 <= k < notes.len() && #[trigger] notes[k].id == l.0 by {
                assert(s.has_note(l.0));
                let k = choose|k: int| 0 <= k < s.notes.len() && #[trigger] s.notes[k].id == l.0;
                assert(notes[k].id == l.0);
            }
            lemma_notes_replaced_valid(s, notes, s.next_note_id);
            assert(self@.notes[i as int].id == id);
            assert(self@ == inner);
        }
        self.replace_tags(id, &tags);
        Ok(())
    }

    /// Deletes note `id` and its tag associations; the tag vocabulary is
    /// kept. A missing note leaves the store as it is.
    pub fn delete_note(&mut self, id: i64)
        requires
            old(self).wf(),
        ensures
            final(self).wf(),
            final(self)@ == old(self)@.delete_note(id),
    {
        let ghost s = self@;
        self.drop_links_of(id);
        let mut notes: Vec<NoteRecord> = Vec::new();
        let mut i: usize = 0;
        while i < self.notes.len()
            invariant
                self@.notes == s.notes,
                i <= self.notes@.len(),
                notes_view(notes@) == s.notes.take(i as int).filter(note_other_than(id)),
            decreases self.notes@.len() - i,
        {
            let ghost before = notes@;
            proof {
                assert(s.notes[i as int] == self.notes@[i as int]@);
                assert(s.notes.take(i + 1) =~= s.notes.take(i as int).push(s.notes[i as int]));
                s.notes.take(i as int).lemma_filter_push(s.notes[i as int], note_other_than(id));
            }
            if self.notes[i].id != id {
                notes.push(self.notes[i].duplicate());
                assert(notes_view(notes@) =~= notes_view(before).push(s.notes[i as int]));
            }
            i += 1;
        }
        assert(s.notes.take(i as int) =~= s.notes);
        self.notes = notes;
        proof {
            assert(self@ =~= s.delete_note(id));
            lemma_delete_note_valid(s, id);
        }
    }

    /// Whether note `note` is associated with tag `tag`.
    fn has_link(&self, note: i64, tag: i64) -> (r: bool)
        ensures
            r == self@.links.contains((note, tag)),
    {
        let mut i: usize = 0;
        while i < self.links.len()
            invariant
                i <= self.links@.len(),
                forall|j: int| 0 <= j < i ==> self.links@[j] != (note, tag),
            decreases self.links@.len() - i,
        {
            if self.links[i].0 == note && self.links[i].1 == tag {
                assert(self.links@[i as int] == (note, tag));
                return true;
            }
            i += 1;
        }
        false
    }

    /// The names of the tags of note `note`, in vocabulary order.
    fn tag_names_of(&self, note: i64) -> (r: Vec<String>)
        ensures
            names_view(r@) == self@.tags_of(note),
    {
        let ghost s = self@;
        let mut r: Vec<String> = Vec::new();
        let mut i: usize = 0;
        while i < self.tags.len()
            invariant
                self@ == s,
                i <= self.tags@.len(),
                names_view(r@) == vocabulary_names(s.tags.take(i as int).filter(s.tagged(note))),
            decreases self.tags@.len() - i,
        {
            let ghost before = r@;
            let t = &self.tags[i];
            proof {
                assert(s.tags[i as int] == t@);
                assert(s.tags.take(i + 1) =~= s.tags.take(i as int).push(t@));
                s.tags.take(i as int).lemma_filter_push(t@, s.tagged(note));
            }
            if self.has_link(note, t.id) {
                r.push(t.name.clone());
                assert(names_view(r@) =~= names_view(before).push(t.name@));
                assert(vocabulary_names(s.tags.take(i as int).filter(s.tagged(note)).push(t@))
                    =~= vocabulary_names(s.tags.take(i as int).filter(s.tagged(note))).push(t.name@));
            }
            i += 1;
        }
        assert(s.tags.take(i as int) =~= s.tags);
        r
    }

    /// Note row `i` joined with its tags.
    fn entry_at(&self, i: usize) -> (r: Note)
        requires
            i < self.notes@.len(),
        ensures
            r@ == self@.listing()[i as int],
    {
        let n = &self.notes[i];
        let r = Note {
            id: n.id,
            title: n.title.clone(),
            content: n.content.clone(),
            is_markdown: n.is_markdown,
            tags: self.tag_names_of(n.id),
            folder_id: n.folder_id,
        };
        assert(self@.notes[i as int] == n@);
        r
    }

    /// Every note, in order of identity, with the names of its tags in
    /// vocabulary order; a note without tags lists none.
    pub fn list_notes(&self) -> (r: Vec<Note>)
        ensures
            entries_view(r@) == self@.listing(),
    {
        let mut r: Vec<Note> = Vec::new();
        let mut i: usize = 0;
        while i < self.notes.len()
            invariant
                i <= self.notes@.len(),
                entries_view(r@) == self@.listing().take(i as int),
            decreases self.notes@.len() - i,
        {
            let e = self.entry_at(i);
            let ghost r0 = r@;
            let ghost ev = e@;
            r.push(e);
            assert(entries_view(r@) =~= entries_view(r0).push(ev));
            i += 1;
            assert(entries_view(r@) =~= self@.listing().take(i as int));
        }
        assert(self@.listing().take(i as int) =~= self@.listing());
        r
    }

    /// The notes with at least one tag whose name contains `fragment`
    /// (case-sensitive), each once and with all of its tags, in order of
    /// identity.
    pub fn search_notes(&self, fragment: &str) -> (r: Vec<Note>)
        ensures
            entries_view(r@) == self@.search(fragment@),
    {
        let ghost all = self@.listing();
        let mut r: Vec<Note> = Vec::new();
        let mut i: usize = 0;
        while i < self.notes.len()
            invariant
                all == self@.listing(),
                i <= self.notes@.len(),
                entries_view(r@) == all.take(i as int).filter(tag_matches(fragment@)),
            decreases self.notes@.len() - i,
        {
            let ghost before = r@;
            let e = self.entry_at(i);
            proof {
                assert(all.take(i + 1) =~= all.take(i as int).push(e@));
                all.take(i as int).lemma_filter_push(e@, tag_matches(fragment@));
            }
            let mut hit = false;
            let mut k: usize = 0;
            while k < e.tags.len()
                invariant
                    k <= e.tags@.len(),
                    hit == exists|j: int| 0 <= j < k && has_substring(#[trigger] e@.tags[j], fragment@),
                decreases e.tags@.len() - k,
            {
                let found = contains_fragment(e.tags[k].as_str(), fragment);
                proof {
                    assert(e@.tags[k as int] == e.tags@[k as int]@);
                }
                hit = hit || found;
                k += 1;
            }
            if hit {
                r.push(e);
                assert(entries_view(r@) =~= entries_view(before).push(e@));
            }
            i += 1;
        }
        assert(all.take(i as int) =~= all);
        r
    }

    /// The names of the tag vocabulary, each once, in name order (see
    /// `name_le`). Tags that no note uses any more are still listed.
    pub fn list_tags(&self) -> (r: Vec<String>)
        requires
            self.wf(),
        ensures
            names_sorted(names_view(r@)),
            names_view(r@).no_duplicates(),
            names_view(r@).to_set() == self@.tag_names().to_set(),
    {
        let ghost s = self@;
        let mut r: Vec<String> = Vec::new();
        let mut k: usize = 0;
        while k < self.tags.len()
            invariant
                self@ == s,
                s.valid(),
                k <= self.tags@.len(),
                names_sorted(names_view(r@)),
                names_view(r@).no_duplicates(),
                forall|x: Seq<char>| #[trigger] names_view(r@).contains(x) <==> exists|j: int|
                    0 <= j < k && s.tags[j].name == x,
            decreases self.tags@.len() - k,
        {
            let name = &self.tags[k].name;
            let ghost nv = names_view(r@);
            let ghost x = name@;
            proof {
                assert(s.tags[k as int].name == x);
                if nv.contains(x) {
                    let j = choose|j: int| 0 <= j < k && s.tags[j].name == x;
                    assert(s.tags[j].name != s.tags[k as int].name);
                }
            }
            let mut p: usize = 0;
            loop
                invariant
                    names_view(r@) == nv,
                    name@ == x,
                    p <= r@.len(),
                    forall|i: int| 0 <= i < p ==> name_le(#[trigger] nv[i], x),
                ensures
                    p <= nv.len(),
                    forall|i: int| 0 <= i < p ==> name_le(#[trigger] nv[i], x),
                    p == nv.len() || !name_le(nv[p as int], x),
                decreases r@.len() - p,
            {
                if p == r.len() {
                    break;
                }
                let in_order = names_in_order(r[p].as_str(), name.as_str());
                assert(nv[p as int] == r@[p as int]@);
                if !in_order {
                    break;
                }
                p += 1;
            }
            r.insert(p, name.clone());
            proof {
                let w = nv.insert(p as int, x);
                assert(names_view(r@) =~= w);
                if p < nv.len() {
                    lemma_name_le_total(nv[p as int], x);
                }
                assert forall|i: int, j: int| 0 <= i < j < w.len() implies name_le(#[trigger] w[i], #[trigger] w[j]) by {
                    if j < p {
                    } else if j == p {
                    } else if i < p {
                        assert(nv[i] == w[i] && nv[j - 1] == w[j]);
                    } else if i == p {
                        if j - 1 > p {
                            assert(name_le(nv[p as int], nv[j - 1]));
                            lemma_name_le_transitive(x, nv[p as int], nv[j - 1]);
                        }
                    } else {
                        assert(name_le(nv[i - 1], nv[j - 1]));
                    }
                }
                assert forall|a: int, b: int| 0 <= a < w.len() && 0 <= b < w.len() && a != b implies w[a] != w[b] by {
                    if a != p && b != p {
                        let a1 = if a < p { a } else { a - 1 };
                        let b1 = if b < p { b } else { b - 1 };
                        assert(nv[a1] != nv[b1]);
                    } else if a == p {
                        let b1 = if b < p { b } else { b - 1 };
                        assert(nv.contains(nv[b1]));
                    } else {
                        let a1 = if a < p { a } else { a - 1 };
                        assert(nv.contains(nv[a1]));
                    }
                }
                assert forall|y: Seq<char>| #[trigger] w.contains(y) <==> exists|j: int|
                    0 <= j < k + 1 && s.tags[j].name == y by {
                    if w.contains(y) && y != x {
                        let q = choose|q: int| 0 <= q < w.len() && w[q] == y;
                        let q1 = if q < p { q } else { q - 1 };
                        assert(nv[q1] == y);
                        assert(nv.contains(y));
                    }
                    if exists|j: int| 0 <= j < k + 1 && s.tags[j].name == y {
                        if y == x {
                            assert(w[p as int] == x);
                        } else {
                            let j = choose|j: int| 0 <= j < k + 1 && s.tags[j].name == y;
                            assert(nv.contains(y));
                            let q = choose|q: int| 0 <= q < nv.len() && nv[q] == y;
                            let q1 = if q < p { q } else { q + 1 };
                            assert(w[q1] == y);
                        }
                    }
                }
            }
            k += 1;
        }
        proof {
            assert forall|y: Seq<char>| names_view(r@).to_set().contains(y) <==> #[trigger] s.tag_names().to_set().contains(y) by {
                if s.tag_names().contains(y) {
                    let q = choose|q: int| 0 <= q < s.tag_names().len() && s.tag_names()[q] == y;
                    assert(s.tags[q].name == y);
                }
                if names_view(r@).contains(y) {
                    let j = choose|j: int| 0 <= j < k && s.tags[j].name == y;
                    assert(s.tag_names()[j] == y);
                }
            }
            assert(names_view(r@).to_set() =~= s.tag_names().to_set());
        }
        r
    }

    /// The index of the preference stored under `key`.
    fn find_pref(&self, key: &str) -> (r: Option<usize>)
        ensures
            match r {
                Some(i) => i < self.prefs@.len() && self@.prefs[i as int].0 == key@ && self@.has_pref(key@),
                None => !self@.has_pref(key@),
            },
    {
        let wanted = key.to_owned();
        let mut i: usize = 0;
        while i < self.prefs.len()
            invariant
                wanted@ == key@,
                i <= self.prefs@.len(),
                forall|j: int| 0 <= j < i ==> self@.prefs[j].0 != key@,
            decreases self.prefs@.len() - i,
        {
            if self.prefs[i].key == wanted {
                assert(self@.prefs[i as int].0 == key@);
                return Some(i);
            }
            i += 1;
        }
        None
    }

    /// The value stored under `key`, if any.
    pub fn get_preference(&self, key: &str) -> (r: Option<String>)
        requires
            self.wf(),
        ensures
            r is Some == self@.has_pref(key@),
            r is Some ==> self@.pref(key@) == Some(r->0@),
    {
        match self.find_pref(key) {
            Some(i) => {
                proof {
                    let k = choose|k: int| 0 <= k < self@.prefs.len() && #[trigger] self@.prefs[k].0 == key@;
                    if k != i {
                        if k < i {
                            assert(self@.prefs[k].0 != self@.prefs[i as int].0);
                        } else {
                            assert(self@.prefs[i as int].0 != self@.prefs[k].0);
                        }
                    }
                }
                Some(self.prefs[i].value.clone())
            },
            None => None,
        }
    }

    /// Stores `value` under `key`, replacing any earlier value.
    pub fn set_preference(&mut self, key: String, value: String)
        requires
            old(self).wf(),
        ensures
            final(self).wf(),
            final(self)@ == old(self)@.set_pref(key@, value@),
    {
        let ghost s = self@;
        match self.find_pref(key.as_str()) {
            Some(i) => {
                self.prefs.set(i, Preference { key, value });
                proof {
                    assert forall|j: int| 0 <= j < s.prefs.len() && j != i implies s.prefs[j].0 != key@ by {
                        if j < i {
                            assert(s.prefs[j].0 != s.prefs[i as int].0);
                        } else {
                            assert(s.prefs[i as int].0 != s.prefs[j].0);
                        }
                    }
                    assert(self@.prefs =~= s.set_pref(key@, value@).prefs);
                }
            },
            None => {
                self.prefs.push(Preference { key, value });
                proof {
                    assert(self@.prefs =~= s.set_pref(key@, value@).prefs);
                }
            },
        }
        proof {
            let t = s.set_pref(key@, value@);
            assert(self@ == t);
            assert forall|f: i64| s.has_folder(f) implies #[trigger] t.has_folder(f) by {}
            assert forall|i: int| 0 <= i < t.folders.len() implies {
                &&& #[trigger] t.folders[i].id < t.next_folder_id
                &&& t.folders[i].parent_id matches Some(p) ==> p < t.folders[i].id && t.has_folder(p)
            } by {
                assert(s.folders[i].id < s.next_folder_id);
            }
            assert forall|i: int| 0 <= i < t.notes.len() implies {
                &&& #[trigger] t.notes[i].id < t.next_note_id
                &&& t.notes[i].folder_id matches Some(f) ==> t.has_folder(f)
            } by {
                assert(s.notes[i].id < s.next_note_id);
            }
            assert forall|l: (i64, i64)| #[trigger] t.links.contains(l) implies t.has_note(l.0) && t.has_tag(l.1) by {
                assert(s.has_note(l.0) && s.has_tag(l.1));
                let a = choose|a: int| 0 <= a < s.notes.len() && #[trigger] s.notes[a].id == l.0;
                let b = choose|b: int| 0 <= b < s.tags.len() && #[trigger] s.tags[b].id == l.1;
                assert(t.notes[a].id == l.0 && t.tags[b].id == l.1);
            }
        }
    }

    /// Whether dark mode is on: the preference `dark_mode` holds `true`.
    /// Without that preference it is off.
    pub fn get_dark_mode(&self) -> (r: bool)
        requires
            self.wf(),
        ensures
            r == (self@.pref("dark_mode"@) == Some("true"@)),
    {
        let on = "true".to_owned();
        match self.get_preference("dark_mode") {
            Some(v) => v == on,
            None => false,
        }
    }

    /// Stores `true` or `false` under the preference `dark_mode`.
    pub fn set_dark_mode(&mut self, enabled: bool)
        requires
            old(self).wf(),
        ensures
            final(self).wf(),
            final(self)@ == old(self)@.set_pref(
                "dark_mode"@,
                if enabled {
                    "true"@
                } else {
                    "false"@
                },
            ),
    {
        let value = if enabled {
            "true".to_owned()
        } else {
            "false".to_owned()
        };
        self.set_preference("dark_mode".to_owned(), value);
    }

    /// The folder rows, in order of identity.
    pub fn folder_rows(&self) -> (r: &Vec<Folder>)
        ensures
            folders_view(r@) == self@.folders,
    {
        &self.folders
    }

    /// The note rows, in order of identity.
    pub fn note_rows(&self) -> (r: &Vec<NoteRecord>)
        ensures
            notes_view(r@) == self@.notes,
    {
        &self.notes
    }

    /// The tag vocabulary, in order of identity.
    pub fn tag_rows(&self) -> (r: &Vec<Tag>)
        ensures
            tags_view(r@) == self@.tags,
    {
        &self.tags
    }

    /// The note/tag associations as `(note_id, tag_id)` pairs, each once.
    pub fn link_rows(&self) -> (r: &Vec<(i64, i64)>)
        requires
            self.wf(),
        ensures
            r@.to_set() == self@.links,
            r@.no_duplicates(),
    {
        &self.links
    }

    /// The stored preferences.
    pub fn preference_rows(&self) -> (r: &Vec<Preference>)
        ensures
            prefs_view(r@) == self@.prefs,
    {
        &self.prefs
    }

    /// A store made of stored rows, when they obey every consistency rule:
    /// identities grow along each table, parents are older existing folders,
    /// notes name existing folders, tag names are distinct, associations name
    /// existing notes and tags and are distinct, and preference keys are
    /// distinct. Each counter continues after the last identity of its table.
    pub fn from_tables(
        folders: Vec<Folder>,
        notes: Vec<NoteRecord>,
        tags: Vec<Tag>,
        links: Vec<(i64, i64)>,
        prefs: Vec<Preference>,
    ) -> (r: Option<Notebook>)
        ensures
            r is Some <==> assemble(
                folders_view(folders@),
                notes_view(notes@),
                tags_view(tags@),
                links@,
                prefs_view(prefs@),
            ).valid() && links@.no_duplicates(),
            r is Some ==> r->0.wf() && r->0@ == assemble(
                folders_view(folders@),
                notes_view(notes@),
                tags_view(tags@),
                links@,
                prefs_view(prefs@),
            ),
    {
        let ghost t = assemble(
            folders_view(folders@),
            notes_view(notes@),
            tags_view(tags@),
            links@,
            prefs_view(prefs@),
        );
        let fids = folder_id_list(&folders);
        let nids = note_id_list(&notes);
        let tids = tag_id_list(&tags);
        proof {
            assert(fids@ =~= folder_ids(t.folders));
            assert(nids@ =~= note_ids(t.notes));
            assert(tids@ =~= tag_ids(t.tags));
            assert forall|x: i64| fids@.contains(x) <==> #[trigger] t.has_folder(x) by {
                if t.has_folder(x) {
                    let i = choose|i: int| 0 <= i < t.folders.len() && #[trigger] t.folders[i].id == x;
                    assert(fids@[i] == x);
                }
            }
            assert forall|x: i64| nids@.contains(x) <==> #[trigger] t.has_note(x) by {
                if t.has_note(x) {
                    let i = choose|i: int| 0 <= i < t.notes.len() && #[trigger] t.notes[i].id == x;
                    assert(nids@[i] == x);
                }
            }
            assert forall|x: i64| tids@.contains(x) <==> #[trigger] t.has_tag(x) by {
                if t.has_tag(x) {
                    let i = choose|i: int| 0 <= i < t.tags.len() && #[trigger] t.tags[i].id == x;
                    assert(tids@[i] == x);
                }
            }
        }
        let nf = next_id(&fids);
        let nn = next_id(&nids);
        let nt = next_id(&tids);
        let fa = ids_ascending(&fids);
        let fp = parents_known(&folders, &fids);
        let na = ids_ascending(&nids);
        let nfk = folders_known(&notes, &fids);
        let ta = ids_ascending(&tids);
        let td = names_distinct(&tags);
        let ls = links_sound(&links, &nids, &tids);
        let kd = keys_distinct(&prefs);
        let ok = nf.is_some() && nn.is_some() && nt.is_some() && fa && fp && na && nfk && ta && td
            && ls && kd;
        proof {
            if t.valid() {
                assert forall|i: int| 0 <= i < folders@.len() implies (#[trigger] folders@[i].parent_id matches Some(p) ==> p
                    < folders@[i].id && fids@.contains(p)) by {
                    assert(t.folders[i].id < t.next_folder_id);
                }
                assert forall|i: int| 0 <= i < notes@.len() implies (#[trigger] notes@[i].folder_id matches Some(f) ==> fids@.contains(f)) by {
                    assert(t.notes[i].id < t.next_note_id);
                }
                assert forall|i: int, j: int| 0 <= i < j < tags@.len() implies #[trigger] tags@[i].name@ != #[trigger] tags@[j].name@ by {
                    assert(t.tags[i].name != t.tags[j].name);
                }
                assert forall|i: int, j: int| 0 <= i < j < prefs@.len() implies #[trigger] prefs@[i].key@ != #[trigger] prefs@[j].key@ by {
                    assert(t.prefs[i].0 != t.prefs[j].0);
                }
                assert forall|i: int| 0 <= i < links@.len() implies nids@.contains(#[trigger] links@[i].0) && tids@.contains(links@[i].1) by {
                    assert(t.links.contains(links@[i]));
                }
            }
            if ok {
                assert forall|i: int| 0 <= i < t.folders.len() implies {
                    &&& #[trigger] t.folders[i].id < t.next_folder_id
                    &&& t.folders[i].parent_id matches Some(p) ==> p < t.folders[i].id && t.has_folder(p)
                } by {
                    assert(folders@[i].parent_id == t.folders[i].parent_id);
                    if i < t.folders.len() - 1 {
                        assert(fids@[i] < fids@[t.folders.len() - 1]);
                    }
                }
                assert forall|i: int| 0 <= i < t.notes.len() implies {
                    &&& #[trigger] t.notes[i].id < t.next_note_id
                    &&& t.notes[i].folder_id matches Some(f) ==> t.has_folder(f)
                } by {
                    assert(notes@[i].folder_id == t.notes[i].folder_id);
                    if i < t.notes.len() - 1 {
                        assert(nids@[i] < nids@[t.notes.len() - 1]);
                    }
                }
                assert forall|i: int| 0 <= i < t.tags.len() implies #[trigger] t.tags[i].id < t.next_tag_id by {
                    if i < t.tags.len() - 1 {
                        assert(tids@[i] < tids@[t.tags.len() - 1]);
                    }
                }
                assert forall|i: int, j: int| 0 <= i < j < t.tags.len() implies #[trigger] t.tags[i].name != #[trigger] t.tags[j].name by {
                    assert(tags@[i].name@ != tags@[j].name@);
                }
                assert forall|i: int, j: int| 0 <= i < j < t.prefs.len() implies #[trigger] t.prefs[i].0 != #[trigger] t.prefs[j].0 by {
                    assert(prefs@[i].key@ != prefs@[j].key@);
                }
                assert forall|l: (i64, i64)| #[trigger] t.links.contains(l) implies t.has_note(l.0) && t.has_tag(l.1) by {
                    let i = choose|i: int| 0 <= i < links@.len() && links@[i] == l;
                    assert(nids@.contains(links@[i].0) && tids@.contains(links@[i].1));
                }
            }
        }
        if !ok {
            return None;
        }
        let next_folder_id = nf.unwrap();
        let next_note_id = nn.unwrap();
        let next_tag_id = nt.unwrap();
        let r = Notebook { folders, notes, tags, links, prefs, next_folder_id, next_note_id, next_tag_id };
        assert(r@ == t);
        Some(r)
    }
}

} // verus!
