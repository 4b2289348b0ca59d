//! Revision bookkeeping shared by every entity: creation and update
//! timestamps and a monotonically increasing version counter, together with
//! validated revision notes.

use vstd::prelude::*;
use crate::text;

verus! {

/// A short free-form note attached to a revision. Non-empty and free of
/// control characters after whitespace normalisation.
#[derive(Debug, Clone)]
pub struct RevisionNote(String);

/// Why a revision note was rejected.
#[derive(Debug, Clone, PartialEq, Eq)]
pub enum MetadataError {
    EmptyRevisionNote,
    RevisionNoteHasControlChars,
}

impl RevisionNote {
    pub closed spec fn view(&self) -> Seq<char> {
        self.0@
    }

    /// Normalises `input` and wraps it, rejecting notes that are empty or
    /// contain control characters.
    pub fn new(input: &str) -> (r: Result<Self, MetadataError>)
        ensures
            match r {
                Ok(note) => note@ == text::normalize_ws(input@) && note@.len() > 0
                    && !text::has_control(note@),
                Err(MetadataError::EmptyRevisionNote) => text::normalize_ws(input@).len() == 0,
                Err(MetadataError::RevisionNoteHasControlChars) => text::normalize_ws(input@).len()
                    > 0 && text::has_control(text::normalize_ws(input@)),
            },
    {
        let note = text::trim_input(input);

        if note.as_str().unicode_len() == 0 {
            return Err(MetadataError::EmptyRevisionNote);
        }

        if text::contains_control(note.as_str()) {
            return Err(MetadataError::RevisionNoteHasControlChars);
        }

        Ok(RevisionNote(note))
    }
}

/// Relies on `time::UtcDateTime::now`, the current wall-clock date and time,
/// and `UtcDateTime::unix_timestamp`, its whole seconds since the Unix
/// epoch. The value depends on the clock, so nothing is promised of it.
#[verifier::external_body]
fn now_timestamp() -> i64 {
    time::UtcDateTime::now().unix_timestamp()
}

/// The version counter after one more revision: one higher, saturating at
/// the largest representable version.
pub open spec fn bumped_version(v: u32) -> u32 {
    if v < u32::MAX {
        (v + 1) as u32
    } else {
        v
    }
}

/// The version counter after `n` more revisions.
pub open spec fn bumped_n(v: u32, n: nat) -> u32
    decreases n,
{
    if n == 0 {
        v
    } else {
        bumped_version(bumped_n(v, (n - 1) as nat))
    }
}

/// Bumping a version `n` times and then `m` more times is the same as
/// bumping it `n + m` times.
pub proof fn lemma_bumped_n_add(v: u32, n: nat, m: nat)
    ensures
        bumped_n(v, n + m) == bumped_n(bumped_n(v, n), m),
    decreases m,
{
    if m > 0 {
        lemma_bumped_n_add(v, n, (m - 1) as nat);
        assert(n + m - 1 == n + ((m - 1) as nat));
    }
}

/// Creation and revision bookkeeping. Timestamps are whole seconds since
/// the Unix epoch.
#[derive(Debug, Clone)]
pub struct Metadata {
    pub created_at: i64,
    pub updated_at: i64,
    pub version: u32,
    pub revision_notes: Vec<RevisionNote>,
    pub tags: Vec<String>,
    pub locked: bool,
}

impl Metadata {
    /// Fresh metadata: both timestamps are the moment of creation and the
    /// version starts at one.
    pub fn new() -> (r: Self)
        ensures
            r.version == 1,
            r.created_at == r.updated_at,
            r.revision_notes@ =~= Seq::<RevisionNote>::empty(),
            r.tags@ =~= Seq::<String>::empty(),
            !r.locked,
    {
        let now = now_timestamp();
        Metadata {
            created_at: now,
            updated_at: now,
            version: 1,
            revision_notes: Vec::new(),
            tags: Vec::new(),
            locked: false,
        }
    }

    /// Appends a revision note; nothing else changes.
    pub fn add_revision_note(&mut self, note: RevisionNote)
        ensures
            final(self).revision_notes@ == old(self).revision_notes@.push(note),
            final(self).created_at == old(self).created_at,
            final(self).updated_at == old(self).updated_at,
            final(self).version == old(self).version,
            final(self).tags == old(self).tags,
            final(self).locked == old(self).locked,
    {
        self.revision_notes.push(note);
    }

    /// Records a modification: moves the update timestamp to now and bumps
    /// the version. Everything else is unchanged; the new timestamp depends
    /// on the clock and is not specified.
    pub fn touch(&mut self)
        ensures
            final(self).version == bumped_version(old(self).version),
            final(self).created_at == old(self).created_at,
            final(self).revision_notes == old(self).revision_notes,
            final(self).tags == old(self).tags,
            final(self).locked == old(self).locked,
    {
        self.updated_at = now_timestamp();
        if self.version < u32::MAX {
            self.version = self.version + 1;
        }
    }
}

} // verus!
