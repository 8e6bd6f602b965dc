//! Turning filesystem events into change notices.
//!
//! Events are collected over a short window, so that a burst of activity
//! becomes one notice per strain. Where an event cannot be attributed to a
//! strain, one notice for any strain is sent instead.

use vstd::prelude::*;
use vstd::string::*;

use crate::metadata::{parse_sidecar_name, sidecar_parts};
use crate::snapshot::id::{parse_name, parse_snapshot_subvol_name};
use crate::text::{contains_text, lemma_views_push, opt_view, views};

verus! {

/// How long events are collected, in milliseconds.
pub const DEBOUNCE_MS: u64 = 200;

/// The strain that an event on the named entry concerns, if it can be told.
pub open spec fn event_strain(name: Option<Seq<char>>) -> Option<Seq<char>> {
    match name {
        None => None,
        Some(n) => match sidecar_parts(n) {
            Some(p) => Some(p.0),
            None => match parse_name(n) {
                Some(p) => Some(p.1),
                None => None,
            },
        },
    }
}

/// The strain that an event on the named entry concerns: the name is that of a
/// sidecar or of a snapshot subvolume.
pub fn classify_event(name: Option<&str>) -> (r: Option<String>)
    ensures
        opt_view(r) == event_strain(crate::text::opt_str(name)),
{
    match name {
        None => None,
        Some(n) => match parse_sidecar_name(n) {
            Some((strain, _)) => Some(strain),
            None => match parse_snapshot_subvol_name(n) {
                Some((_, strain, _)) => Some(strain),
                None => None,
            },
        },
    }
}

/// The events of the current window.
#[derive(Debug)]
pub struct Debounce {
    /// When the window closes, in milliseconds; `None` while it is empty.
    pub deadline: Option<u64>,
    /// The strains concerned, each once.
    pub strains: Vec<String>,
    /// Whether some event could not be attributed.
    pub any_unknown: bool,
}

/// The strains with one more, unless it is there.
pub open spec fn noted(v: Seq<Seq<char>>, s: Seq<char>) -> Seq<Seq<char>> {
    if v.contains(s) {
        v
    } else {
        v.push(s)
    }
}

impl Debounce {
    /// Whether no strain is noted twice, and whether there are events exactly
    /// while the window is open.
    pub open spec fn wf(self) -> bool {
        &&& views(self.strains@).no_duplicates()
        &&& self.deadline is None ==> self.strains@.len() == 0 && !self.any_unknown
    }

    /// No events.
    pub fn new() -> (r: Self)
        ensures
            r.wf(),
            r.deadline is None,
            r.strains@.len() == 0,
            !r.any_unknown,
    {
        Debounce { deadline: None, strains: Vec::new(), any_unknown: false }
    }

    /// Take an event at `now`. The first opens the window.
    pub fn event(&mut self, name: Option<&str>, now: u64)
        requires
            old(self).wf(),
            now <= u64::MAX - DEBOUNCE_MS,
        ensures
            final(self).wf(),
            final(self).deadline == (match old(self).deadline {
                Some(t) => Some(t),
                None => Some((now + DEBOUNCE_MS) as u64),
            }),
            match event_strain(crate::text::opt_str(name)) {
                Some(s) => views(final(self).strains@) == noted(views(old(self).strains@), s)
                    && final(self).any_unknown == old(self).any_unknown,
                None => final(self).strains == old(self).strains && final(self).any_unknown,
            },
    {
        match classify_event(name) {
            Some(s) => {
                if !contains_text(&self.strains, s.as_str()) {
                    let ghost before = self.strains@;
                    self.strains.push(s);
                    proof {
                        lemma_views_push(before, s);
                        assert(views(self.strains@).no_duplicates());
                    }
                }
            },
            None => {
                self.any_unknown = true;
            },
        }
        self.deadline = match self.deadline {
            Some(t) => Some(t),
            None => Some(now + DEBOUNCE_MS),
        };
    }

    /// Close the window. Returns the notices to send: one per strain, or a
    /// single empty one, for any strain, where some event could not be
    /// attributed.
    pub fn fire(&mut self) -> (r: Vec<String>)
        requires
            old(self).wf(),
        ensures
            final(self).wf(),
            final(self).deadline is None,
            views(r@) == if old(self).any_unknown {
                seq![""@]
            } else {
                views(old(self).strains@)
            },
    {
        let mut out: Vec<String> = Vec::new();
        if self.any_unknown {
            out.push("".to_owned());
            assert(views(out@) =~= seq![""@]);
        } else {
            out = crate::text::clone_texts(&self.strains);
        }
        self.strains = Vec::new();
        self.any_unknown = false;
        self.deadline = None;
        out
    }
}

} // verus!
