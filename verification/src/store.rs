//! The note store: the `Note` record, the intents it accepts, and the
//! operations that mutate the store.

use vstd::prelude::*;

use crate::codec::decode_notes;
use crate::codec::encode_notes;
use crate::codec::encode_notes_exec;
use crate::codec::spec_decode;
use crate::model::NoteModel;
use crate::model::StoreModel;
use crate::model::lemma_first_index_found;
use crate::model::lemma_first_index_none;
use crate::model::max_id;
use crate::model::placeholder_title;
use crate::model::recovered_next_id;
use crate::model::remove_with_id;
use crate::model::spec_add;
use crate::model::spec_delete;
use crate::model::spec_update_content;
use crate::model::spec_update_title;

verus! {

/// An intent delivered to the store: one discrete user or system action.
#[derive(Debug, Clone)]
pub enum Message {
    AddNote,
    DeleteNote(usize),
    UpdateNoteTitle(usize, String),
    UpdateNoteContent(usize, String),
    SaveNotes,
    LoadNotes,
}

/// The follow-up the store asks its host for after handling an intent.
#[derive(Debug)]
pub enum Effect {
    /// Deliver this intent next.
    Dispatch(Message),
    /// Overwrite the persisted file with this text.
    Write(String),
    /// Read the persisted file and hand its text to `apply_loaded`.
    Read,
}

/// A single note: a unique id and two freely edited texts.
#[derive(Debug)]
pub struct Note {
    pub id: usize,
    pub title: String,
    pub content: String,
}

impl DeepView for Note {
    type V = NoteModel;

    open spec fn deep_view(&self) -> NoteModel {
        NoteModel { id: self.id as int, title: self.title@, content: self.content@ }
    }
}

impl Clone for Note {
    /// Cloning keeps every field.
    fn clone(&self) -> (r: Note)
        ensures
            r.deep_view() == self.deep_view(),
    {
        Note { id: self.id, title: self.title.clone(), content: self.content.clone() }
    }
}

/// The store: the notes in insertion order, and the smallest id that is
/// guaranteed unused.
pub struct NotesApp {
    pub notes: Vec<Note>,
    pub next_id: usize,
}

impl View for NotesApp {
    type V = StoreModel;

    open spec fn view(&self) -> StoreModel {
        StoreModel { notes: self.notes.deep_view(), next_id: self.next_id as int }
    }
}

/// The window title the host shows for the store.
pub open spec fn app_title() -> Seq<char> {
    seq!['i', 'O', 'S', ' ', 'N', 'o', 't', 'e', 's', ' ', 'A', 'p', 'p']
}

impl NotesApp {
    /// A fresh, empty store, together with the request to load what was
    /// persisted.
    pub fn new() -> (r: (NotesApp, Effect))
        ensures
            r.0@.notes == Seq::<NoteModel>::empty(),
            r.0@.next_id == 0,
            r.1 == Effect::Dispatch(Message::LoadNotes),
    {
        let app = NotesApp { notes: Vec::new(), next_id: 0 };
        proof {
            assert(app@.notes =~= Seq::<NoteModel>::empty());
        }
        (app, Effect::Dispatch(Message::LoadNotes))
    }

    /// The fixed window title.
    pub fn title(&self) -> (r: String)
        ensures
            r@ == app_title(),
    {
        let r: String = "iOS Notes App".to_owned();
        proof {
            reveal_strlit("iOS Notes App");
            assert(r@ =~= app_title());
        }
        r
    }

    /// Appends a fresh note carrying the next free id, the placeholder
    /// title and empty content, and advances the allocator.
    pub fn add_note(&mut self)
        requires
            old(self)@.next_id < usize::MAX as int,
        ensures
            final(self)@ == spec_add(old(self)@),
    {
        let title: String = "New Note".to_owned();
        proof {
            reveal_strlit("New Note");
            assert(title@ =~= placeholder_title());
        }
        let note = Note { id: self.next_id, title: title, content: String::new() };
        self.notes.push(note);
        self.next_id = self.next_id + 1;
        proof {
            assert(self@.notes =~= spec_add(old(self)@).notes);
            assert(self@ =~= spec_add(old(self)@));
        }
    }

    /// Removes every note whose id equals the argument; the survivors keep
    /// their relative order. A miss removes nothing.
    pub fn delete_note(&mut self, id: usize)
        ensures
            final(self)@ == spec_delete(old(self)@, id as int),
    {
        let ghost s: Seq<NoteModel> = self.notes.deep_view();
        let mut kept: Vec<Note> = Vec::new();
        let n = self.notes.len();
        let mut i: usize = 0;
        proof {
            assert(kept.deep_view() =~= remove_with_id(s.take(0), id as int));
        }
        while i < n
            invariant
                i <= n,
                n == self.notes.len(),
                self.notes.deep_view() == s,
                self.next_id == old(self).next_id,
                self.notes@ == old(self).notes@,
                kept.deep_view() == remove_with_id(s.take(i as int), id as int),
            decreases n - i,
        {
            let ghost kept_before: Seq<NoteModel> = kept.deep_view();
            if self.notes[i].id != id {
                let note = self.notes[i].clone();
                kept.push(note);
                proof {
                    assert(kept.deep_view() =~= kept_before.push(s[i as int]));
                }
            }
            proof {
                assert(s.take(i + 1).drop_last() =~= s.take(i as int));
                assert(s.take(i + 1).last() == s[i as int]);
                assert(kept.deep_view() == remove_with_id(s.take(i + 1), id as int));
            }
            i = i + 1;
        }
        proof {
            assert(s.take(n as int) =~= s);
        }
        self.notes = kept;
        proof {
            assert(self@ =~= spec_delete(old(self)@, id as int));
        }
    }

    /// Replaces the title of the first note with the given id; a miss
    /// changes nothing.
    pub fn update_title(&mut self, id: usize, new_title: String)
        ensures
            final(self)@ == spec_update_title(old(self)@, id as int, new_title@),
    {
        let ghost s: Seq<NoteModel> = self.notes.deep_view();
        let n = self.notes.len();
        let mut i: usize = 0;
        while i < n
            invariant
                i <= n,
                n == self.notes.len(),
                self.notes@ == old(self).notes@,
                self.next_id == old(self).next_id,
                s == self.notes.deep_view(),
                forall|j: int| 0 <= j < i ==> s[j].id != id as int,
            decreases n - i,
        {
            if self.notes[i].id == id {
                self.notes[i].title = new_title;
                proof {
                    lemma_first_index_found(s, id as int, i as int);
                    assert(self.notes.deep_view() =~= s.update(
                        i as int,
                        NoteModel { id: s[i as int].id, title: new_title@, content: s[i as int].content },
                    ));
                    assert(self@ =~= spec_update_title(old(self)@, id as int, new_title@));
                }
                return ;
            }
            i = i + 1;
        }
        proof {
            lemma_first_index_none(s, id as int);
            assert(self@ =~= old(self)@);
        }
    }

    /// Replaces the content of the first note with the given id; a miss
    /// changes nothing.
    pub fn update_content(&mut self, id: usize, new_content: String)
        ensures
            final(self)@ == spec_update_content(old(self)@, id as int, new_content@),
    {
        let ghost s: Seq<NoteModel> = self.notes.deep_view();
        let n = self.notes.len();
        let mut i: usize = 0;
        while i < n
            invariant
                i <= n,
                n == self.notes.len(),
                self.notes@ == old(self).notes@,
                self.next_id == old(self).next_id,
                s == self.notes.deep_view(),
                forall|j: int| 0 <= j < i ==> s[j].id != id as int,
            decreases n - i,
        {
            if self.notes[i].id == id {
                self.notes[i].content = new_content;
                proof {
                    lemma_first_index_found(s, id as int, i as int);
                    assert(self.notes.deep_view() =~= s.update(
                        i as int,
                        NoteModel { id: s[i as int].id, title: s[i as int].title, content: new_content@ },
                    ));
                    assert(self@ =~= spec_update_content(old(self)@, id as int, new_content@));
                }
                return ;
            }
            i = i + 1;
        }
        proof {
            lemma_first_index_none(s, id as int);
            assert(self@ =~= old(self)@);
        }
    }

    /// Encodes the notes (not the allocator) as the persisted text.
    pub fn save_to_string(&self) -> (r: String)
        ensures
            r@ == encode_notes(self@.notes),
    {
        encode_notes_exec(&self.notes)
    }

    /// Applies the result of reading the persisted file. Nothing read, or
    /// text this format cannot decode, leaves the store as it is; decoded
    /// notes replace the store's, and the allocator is resynced to one
    /// past the largest loaded id (0 when nothing was loaded). A loaded
    /// largest id at the very top of the id space would leave the
    /// allocator nowhere to go, so such text is discarded too.
    pub fn apply_loaded(&mut self, contents: Option<&str>)
        ensures
            match contents {
                None => final(self)@ == old(self)@,
                Some(s) => match spec_decode(s@) {
                    None => final(self)@ == old(self)@,
                    Some(ns) => if ns.len() > 0 && max_id(ns) == usize::MAX as int {
                        final(self)@ == old(self)@
                    } else {
                        final(self)@.notes == ns && final(self)@.next_id == recovered_next_id(ns)
                    },
                },
            },
    {
        let s = match contents {
            None => {
                return ;
            },
            Some(s) => s,
        };
        let decoded = match decode_notes(s) {
            None => {
                return ;
            },
            Some(v) => v,
        };
        let ghost ns = decoded.deep_view();
        let n = decoded.len();
        if n == 0 {
            self.notes = decoded;
            self.next_id = 0;
            return ;
        }
        let mut m: usize = decoded[0].id;
        let mut i: usize = 1;
        proof {
            assert(ns.take(1).len() == 1);
            assert(ns.take(1)[0] == ns[0]);
            assert(m as int == max_id(ns.take(1)));
        }
        while i < n
            invariant
                1 <= i <= n,
                n == decoded.len(),
                ns == decoded.deep_view(),
                m as int == max_id(ns.take(i as int)),
            decreases n - i,
        {
            if decoded[i].id > m {
                m = decoded[i].id;
            }
            proof {
                assert(ns.take(i + 1).drop_last() =~= ns.take(i as int));
                assert(ns.take(i + 1).last() == ns[i as int]);
            }
            i = i + 1;
        }
        proof {
            assert(ns.take(n as int) =~= ns);
        }
        if m == usize::MAX {
            return ;
        }
        self.notes = decoded;
        self.next_id = m + 1;
    }

    /// Handles one intent: the four mutations ask for a save to follow,
    /// a save hands back the encoded text to write, and a load asks for
    /// the persisted text to be read.
    pub fn update(&mut self, message: Message) -> (eff: Effect)
        requires
            message is AddNote ==> old(self)@.next_id < usize::MAX as int,
        ensures
            match message {
                Message::AddNote => final(self)@ == spec_add(old(self)@) && eff
                    == Effect::Dispatch(Message::SaveNotes),
                Message::DeleteNote(id) => final(self)@ == spec_delete(old(self)@, id as int)
                    && eff == Effect::Dispatch(Message::SaveNotes),
                Message::UpdateNoteTitle(id, title) => final(self)@ == spec_update_title(
                    old(self)@,
                    id as int,
                    title@,
                ) && eff == Effect::Dispatch(Message::SaveNotes),
                Message::UpdateNoteContent(id, content) => final(self)@ == spec_update_content(
                    old(self)@,
                    id as int,
                    content@,
                ) && eff == Effect::Dispatch(Message::SaveNotes),
                Message::SaveNotes => final(self)@ == old(self)@ && (eff matches Effect::Write(
                    text,
                ) && text@ == encode_notes(old(self)@.notes)),
                Message::LoadNotes => final(self)@ == old(self)@ && eff == Effect::Read,
            },
    {
        match message {
            Message::AddNote => {
                self.add_note();
                Effect::Dispatch(Message::SaveNotes)
            },
            Message::DeleteNote(id) => {
                self.delete_note(id);
                Effect::Dispatch(Message::SaveNotes)
            },
            Message::UpdateNoteTitle(id, title) => {
                self.update_title(id, title);
                Effect::Dispatch(Message::SaveNotes)
            },
            Message::UpdateNoteContent(id, content) => {
                self.update_content(id, content);
                Effect::Dispatch(Message::SaveNotes)
            },
            Message::SaveNotes => {
                let text = self.save_to_string();
                Effect::Write(text)
            },
            Message::LoadNotes => Effect::Read,
        }
    }
}

} // verus!
