use vstd::prelude::*;

use crate::crypto::{decrypt, decrypt_ensures, MasterKey};
use crate::error::ClipError;
use crate::models::{ClipboardContentType, ClipboardEntry, EntryView};
use crate::store::{all_records, entry_views, id_key, is_listing, ClipboardDatabase};

verus! {

/// Rows that one page key moves the selection by.
pub const PAGE: usize = 10;

/// A key press, as the browser distinguishes them.
#[derive(Debug, Clone, Copy, PartialEq, Eq, Structural)]
pub enum Key {
    Quit,
    Down,
    Up,
    Delete,
    Copy,
    Open,
    Refresh,
    Home,
    End,
    PageDown,
    PageUp,
    Other,
}

/// What the caller has to do after a key press.
#[derive(Debug, Clone, Copy, PartialEq, Eq, Structural)]
pub enum Action {
    Nothing,
    /// The selected entry was deleted.
    Deleted,
    /// The list was read again from the store.
    Refreshed,
    /// Put the selected entry on the clipboard.
    Copy,
    /// Open the selected entry in a viewer.
    Open,
}

/// The selection after moving down: wraps from the last row to the first.
pub open spec fn next_index(len: nat, sel: Option<usize>) -> Option<usize> {
    if len == 0 {
        sel
    } else {
        match sel {
            Some(i) => if i >= len - 1 { Some(0usize) } else { Some((i + 1) as usize) },
            None => Some(0usize),
        }
    }
}

/// The selection after moving up: wraps from the first row to the last.
pub open spec fn previous_index(len: nat, sel: Option<usize>) -> Option<usize> {
    if len == 0 {
        sel
    } else {
        match sel {
            Some(i) => if i == 0 { Some((len - 1) as usize) } else { Some((i - 1) as usize) },
            None => Some(0usize),
        }
    }
}

/// The selection after a page down: `PAGE` rows on, stopping at the last.
pub open spec fn page_down_index(len: nat, sel: Option<usize>) -> Option<usize> {
    if len == 0 {
        sel
    } else {
        match sel {
            Some(i) => if i + PAGE >= len - 1 { Some((len - 1) as usize) } else { Some((i + PAGE) as usize) },
            None => Some(0usize),
        }
    }
}

/// The selection after a page up: `PAGE` rows back, stopping at the first.
pub open spec fn page_up_index(len: nat, sel: Option<usize>) -> Option<usize> {
    if len == 0 {
        sel
    } else {
        match sel {
            Some(i) => if i < PAGE { Some(0usize) } else { Some((i - PAGE) as usize) },
            None => Some(0usize),
        }
    }
}

/// The selection kept valid for a list of `len` rows: none on an empty
/// list, the first row when there was none, the last row when it was past
/// the end.
pub open spec fn clamped_index(len: nat, sel: Option<usize>) -> Option<usize> {
    if len == 0 {
        None
    } else {
        match sel {
            Some(i) => if i >= len { Some((len - 1) as usize) } else { Some(i) },
            None => Some(0usize),
        }
    }
}

/// State of the history browser: the listed entries, the selected row and
/// whether the user asked to quit.
pub struct App {
    entries: Vec<ClipboardEntry>,
    selected: Option<usize>,
    should_quit: bool,
    db: ClipboardDatabase,
    key: MasterKey,
}

impl App {
    pub closed spec fn rows(&self) -> Seq<EntryView> {
        entry_views(self.entries@)
    }

    pub closed spec fn selection(&self) -> Option<usize> {
        self.selected
    }

    pub closed spec fn quitting(&self) -> bool {
        self.should_quit
    }

    pub closed spec fn store(&self) -> ClipboardDatabase {
        self.db
    }

    pub closed spec fn key(&self) -> Seq<u8> {
        self.key@
    }

    pub closed spec fn wf(&self) -> bool {
        &&& self.db.wf()
        &&& self.selected is Some ==> self.selected->Some_0 < self.entries@.len()
    }

    /// Opens the browser on every entry of `db`, newest first, with the
    /// first row selected.
    pub fn new(db: ClipboardDatabase, key: MasterKey) -> (r: Result<Self, ClipError>)
        requires
            db.wf(),
        ensures
            r is Ok ==> {
                let a = r->Ok_0;
                &&& a.wf()
                &&& a.store() == db
                &&& a.key() == key@
                &&& is_listing(db.entries(), a.rows())
                &&& a.selection() == (if a.rows().len() == 0 { None } else { Some(0usize) })
                &&& !a.quitting()
            },
            r is Err ==> r->Err_0 == ClipError::Store || r->Err_0 == ClipError::Corrupt,
            all_records(db.entries()) ==> r is Ok || r->Err_0 == ClipError::Store,
    {
        let entries = db.list_entries()?;
        let selected = if entries.len() == 0 { None } else { Some(0) };
        Ok(App { entries, selected, should_quit: false, db, key })
    }

    /// The selected row, if any.
    pub fn selected(&self) -> (r: Option<usize>)
        ensures
            r == self.selection(),
    {
        self.selected
    }

    /// Whether the user asked to quit.
    pub fn should_quit(&self) -> (r: bool)
        ensures
            r == self.quitting(),
    {
        self.should_quit
    }

    /// The listed entries.
    pub fn entries(&self) -> (r: &Vec<ClipboardEntry>)
        ensures
            entry_views(r@) == self.rows(),
    {
        &self.entries
    }

    /// The entry in the selected row.
    pub fn get_selected_entry(&self) -> (r: Option<&ClipboardEntry>)
        requires
            self.wf(),
        ensures
            self.selection() is None ==> r is None,
            self.selection() is Some ==> r is Some && r->Some_0@ == self.rows()[self.selection()->Some_0 as int],
    {
        match self.selected {
            Some(i) => Some(&self.entries[i]),
            None => None,
        }
    }

    pub fn next(&mut self)
        requires
            old(self).wf(),
        ensures
            final(self).wf(),
            final(self).selection() == next_index(old(self).rows().len(), old(self).selection()),
            final(self).rows() == old(self).rows(),
            final(self).store() == old(self).store(),
            final(self).quitting() == old(self).quitting(),
            final(self).key() == old(self).key(),
    {
        let len = self.entries.len();
        if len == 0 {
            return;
        }
        let i = match self.selected {
            Some(i) => if i >= len - 1 { 0 } else { i + 1 },
            None => 0,
        };
        self.selected = Some(i);
    }

    pub fn previous(&mut self)
        requires
            old(self).wf(),
        ensures
            final(self).wf(),
            final(self).selection() == previous_index(old(self).rows().len(), old(self).selection()),
            final(self).rows() == old(self).rows(),
            final(self).store() == old(self).store(),
            final(self).quitting() == old(self).quitting(),
            final(self).key() == old(self).key(),
    {
        let len = self.entries.len();
        if len == 0 {
            return;
        }
        let i = match self.selected {
            Some(i) => if i == 0 { len - 1 } else { i - 1 },
            None => 0,
        };
        self.selected = Some(i);
    }

    pub fn select_first(&mut self)
        requires
            old(self).wf(),
        ensures
            final(self).wf(),
            final(self).selection() == (if old(self).rows().len() == 0 { old(self).selection() } else { Some(0usize) }),
            final(self).rows() == old(self).rows(),
            final(self).store() == old(self).store(),
            final(self).quitting() == old(self).quitting(),
            final(self).key() == old(self).key(),
    {
        if self.entries.len() > 0 {
            self.selected = Some(0);
        }
    }

    pub fn select_last(&mut self)
        requires
            old(self).wf(),
        ensures
            final(self).wf(),
            final(self).selection() == (if old(self).rows().len() == 0 {
                old(self).selection()
            } else {
                Some((old(self).rows().len() - 1) as usize)
            }),
            final(self).rows() == old(self).rows(),
            final(self).store() == old(self).store(),
            final(self).quitting() == old(self).quitting(),
            final(self).key() == old(self).key(),
    {
        if self.entries.len() > 0 {
            self.selected = Some(self.entries.len() - 1);
        }
    }

    pub fn page_down(&mut self)
        requires
            old(self).wf(),
        ensures
            final(self).wf(),
            final(self).selection() == page_down_index(old(self).rows().len(), old(self).selection()),
            final(self).rows() == old(self).rows(),
            final(self).store() == old(self).store(),
            final(self).quitting() == old(self).quitting(),
            final(self).key() == old(self).key(),
    {
        let len = self.entries.len();
        if len == 0 {
            return;
        }
        let i = match self.selected {
            Some(i) => if len - 1 - i <= PAGE { len - 1 } else { i + PAGE },
            None => 0,
        };
        self.selected = Some(i);
    }

    pub fn page_up(&mut self)
        requires
            old(self).wf(),
        ensures
            final(self).wf(),
            final(self).selection() == page_up_index(old(self).rows().len(), old(self).selection()),
            final(self).rows() == old(self).rows(),
            final(self).store() == old(self).store(),
            final(self).quitting() == old(self).quitting(),
            final(self).key() == old(self).key(),
    {
        let len = self.entries.len();
        if len == 0 {
            return;
        }
        let i = match self.selected {
            Some(i) => if i < PAGE { 0 } else { i - PAGE },
            None => 0,
        };
        self.selected = Some(i);
    }

    /// Deletes the selected entry from the store and from the list, keeping
    /// the selection on a valid row. True iff a row was selected.
    pub fn delete_selected(&mut self) -> (r: Result<bool, ClipError>)
        requires
            old(self).wf(),
        ensures
            final(self).wf(),
            final(self).quitting() == old(self).quitting(),
            final(self).key() == old(self).key(),
            old(self).selection() is None ==> r == Ok::<bool, ClipError>(false) && *final(self) == *old(self),
            old(self).selection() is Some && r is Ok ==> r->Ok_0,
            r == Ok::<bool, ClipError>(true) ==> {
                let i = old(self).selection()->Some_0 as int;
                &&& old(self).selection() is Some
                &&& final(self).store().entries() == old(self).store().entries().remove(id_key(old(self).rows()[i].id))
                &&& final(self).rows() == old(self).rows().remove(i)
                &&& final(self).selection() == clamped_index(final(self).rows().len(), old(self).selection())
            },
            r is Err ==> r->Err_0 == ClipError::Store && final(self).rows() == old(self).rows()
                && final(self).selection() == old(self).selection(),
    {
        let index = match self.selected {
            Some(i) => i,
            None => return Ok(false),
        };
        self.db.delete_entry(self.entries[index].id.as_str())?;
        let ghost before = self.entries@;
        self.entries.remove(index);
        proof {
            assert(entry_views(self.entries@) =~= entry_views(before).remove(index as int));
        }
        let len = self.entries.len();
        if len == 0 {
            self.selected = None;
        } else if index >= len {
            self.selected = Some(len - 1);
        }
        Ok(true)
    }

    /// Reads the list again from the store, keeping the selection valid.
    pub fn refresh(&mut self) -> (r: Result<(), ClipError>)
        requires
            old(self).wf(),
        ensures
            final(self).wf(),
            final(self).store() == old(self).store(),
            final(self).quitting() == old(self).quitting(),
            final(self).key() == old(self).key(),
            r is Ok ==> is_listing(old(self).store().entries(), final(self).rows()) && final(self).selection()
                == clamped_index(final(self).rows().len(), old(self).selection()),
            r is Err ==> *final(self) == *old(self),
            r is Err ==> r->Err_0 == ClipError::Store || r->Err_0 == ClipError::Corrupt,
            all_records(old(self).store().entries()) ==> r is Ok || r->Err_0 == ClipError::Store,
    {
        let entries = self.db.list_entries()?;
        self.entries = entries;
        let len = self.entries.len();
        if len == 0 {
            self.selected = None;
        } else {
            match self.selected {
                Some(i) => if i >= len {
                    self.selected = Some(len - 1);
                },
                None => {
                    self.selected = Some(0);
                },
            }
        }
        Ok(())
    }

    /// The kind and plaintext of the selected entry.
    pub fn selected_plaintext(&self) -> (r: Result<Option<(ClipboardContentType, Vec<u8>)>, ClipError>)
        requires
            self.wf(),
        ensures
            self.selection() is None ==> r == Ok::<Option<(ClipboardContentType, Vec<u8>)>, ClipError>(None),
            self.selection() is Some ==> {
                let e = self.rows()[self.selection()->Some_0 as int];
                let d = match r {
                    Ok(Some(p)) => Ok::<Vec<u8>, ClipError>(p.1),
                    Ok(None) => Err(ClipError::NotFound),
                    Err(x) => Err(x),
                };
                &&& r is Ok ==> r->Ok_0 is Some && r->Ok_0->Some_0.0 == e.content_type
                &&& decrypt_ensures(self.key(), e.payload, d)
            },
    {
        match self.selected {
            Some(i) => {
                let entry = &self.entries[i];
                let p = decrypt(&self.key, entry.payload.as_slice())?;
                Ok(Some((entry.content_type, p)))
            },
            None => Ok(None),
        }
    }

    /// Applies one key press. Navigation and quitting happen here; deletion
    /// and refreshing go to the store; copying and opening are left to the
    /// caller, which the returned action names.
    pub fn handle_key(&mut self, key: Key) -> (r: Result<Action, ClipError>)
        requires
            old(self).wf(),
        ensures
            final(self).wf(),
            final(self).key() == old(self).key(),
            key == Key::Quit ==> final(self).quitting() && final(self).rows() == old(self).rows()
                && final(self).selection() == old(self).selection() && r == Ok::<Action, ClipError>(Action::Nothing),
            key == Key::Down ==> final(self).selection() == next_index(old(self).rows().len(), old(self).selection()),
            key == Key::Up ==> final(self).selection() == previous_index(old(self).rows().len(), old(self).selection()),
            key == Key::PageDown ==> final(self).selection() == page_down_index(old(self).rows().len(), old(self).selection()),
            key == Key::PageUp ==> final(self).selection() == page_up_index(old(self).rows().len(), old(self).selection()),
            key == Key::Copy ==> *final(self) == *old(self) && r == Ok::<Action, ClipError>(Action::Copy),
            key == Key::Open ==> *final(self) == *old(self) && r == Ok::<Action, ClipError>(Action::Open),
            key == Key::Other ==> *final(self) == *old(self) && r == Ok::<Action, ClipError>(Action::Nothing),
            key == Key::Delete && r is Ok ==> r->Ok_0 == (if old(self).selection() is Some { Action::Deleted } else { Action::Nothing }),
            key == Key::Refresh && r is Ok ==> r->Ok_0 == Action::Refreshed && is_listing(old(self).store().entries(), final(self).rows()),
    {
        match key {
            Key::Quit => {
                self.should_quit = true;
                Ok(Action::Nothing)
            },
            Key::Down => {
                self.next();
                Ok(Action::Nothing)
            },
            Key::Up => {
                self.previous();
                Ok(Action::Nothing)
            },
            Key::Delete => {
                if self.delete_selected()? {
                    Ok(Action::Deleted)
                } else {
                    Ok(Action::Nothing)
                }
            },
            Key::Copy => Ok(Action::Copy),
            Key::Open => Ok(Action::Open),
            Key::Refresh => {
                self.refresh()?;
                Ok(Action::Refreshed)
            },
            Key::Home => {
                self.select_first();
                Ok(Action::Nothing)
            },
            Key::End => {
                self.select_last();
                Ok(Action::Nothing)
            },
            Key::PageDown => {
                self.page_down();
                Ok(Action::Nothing)
            },
            Key::PageUp => {
                self.page_up();
                Ok(Action::Nothing)
            },
            Key::Other => Ok(Action::Nothing),
        }
    }
}

} // verus!
