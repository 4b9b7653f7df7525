//! The single-slot undo record of the last note change.
use vstd::prelude::*;
use crate::config::VaultError;
use crate::format::{Date, date_is, iso_text, parsed_ymd, valid_ymd};
use crate::text::{chars_string, extend_chars, str_chars};

verus! {

/// A note's content before the last change, with where it belongs.
pub struct UndoRecord {
    /// The vault root the note lives in.
    pub vault: String,
    /// The note's day, `YYYY-MM-DD`.
    pub date: String,
    pub path: String,
    pub before: String,
}

impl UndoRecord {
    /// The record kept before `path` (the note of `date` in the vault at
    /// `vault_root`) is overwritten; `before` is its current content.
    pub fn before_write(vault_root: &str, date: &Date, path: &str, before: &str) -> (r: UndoRecord)
        ensures
            r.vault@ == vault_root@,
            r.date@ == iso_text(date.y(), date.m(), date.d()),
            r.path@ == path@,
            r.before@ == before@,
    {
        UndoRecord {
            vault: String::from_str(vault_root),
            date: date.iso(),
            path: String::from_str(path),
            before: String::from_str(before),
        }
    }

    /// The day whose note this record restores in the vault at
    /// `vault_root`: a record of another vault is refused, and so is one
    /// whose date does not read as `YYYY-MM-DD`. A record made by
    /// `before_write` in the same vault restores the day it was made for.
    pub fn restore_date(&self, vault_root: &str) -> (r: Result<Date, VaultError>)
        ensures
            match r {
                Ok(d) => self.vault@ == vault_root@ && date_is(Some(d), parsed_ymd(self.date@)),
                Err(VaultError::Io(m)) => if self.vault@ != vault_root@ {
                    m@ == "undo record is for a different vault; refusing to restore"@
                } else {
                    date_is(None, parsed_ymd(self.date@)) && m@ == "invalid undo date "@ + self.date@
                },
                Err(_) => false,
            },
            forall|y: i32, m: u32, d: u32|
                self.vault@ == vault_root@ && valid_ymd(y, m, d) && self.date@ == #[trigger] iso_text(
                    y,
                    m,
                    d,
                ) ==> (r matches Ok(x) && x.y() == y && x.m() == m && x.d() == d),
    {
        if !crate::text::chars_eq(&str_chars(self.vault.as_str()), &str_chars(vault_root)) {
            return Err(VaultError::Io(String::from_str("undo record is for a different vault; refusing to restore")));
        }
        match Date::parse_iso(self.date.as_str()) {
            Some(d) => Ok(d),
            None => {
                let mut m = str_chars("invalid undo date ");
                extend_chars(&mut m, &str_chars(self.date.as_str()));
                Err(VaultError::Io(chars_string(&m)))
            },
        }
    }
}

} // verus!
