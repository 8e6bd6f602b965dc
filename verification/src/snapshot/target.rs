//! User-supplied references to snapshots.

use vstd::prelude::*;
use vstd::string::*;
use vstd::utf8::encode_utf8;

use crate::config::{is_valid_strain_name, valid_strain_name};
use crate::error::{quoted, quoted_form, ErrorView, RevenantError};
use crate::snapshot::id::{
    id_fault, id_fault_text, id_ok, lemma_id_last, lemma_id_plain, SnapshotId,
};
use crate::snapshot::info::qualified_text;
use crate::text::{
    cat2, cat3, cat4, lemma_split_first_at, lemma_split_first_joins, lemma_split_first_none,
    opt_view, same_text, split_first, split_once,
};

verus! {

/// A user-supplied snapshot reference.
///
/// * `strain@ID`: a single snapshot
/// * `ID`: a single snapshot, its strain found by lookup
/// * `strain@` or `strain@all`: every snapshot in a strain
#[derive(Debug, PartialEq, Eq)]
#[allow(inconsistent_fields)]
pub enum SnapshotTarget {
    /// One specific snapshot, of the given strain where the user spelled it
    /// out.
    Single { strain: Option<String>, id: SnapshotId },
    /// Every snapshot of a given strain.
    AllInStrain { strain: String },
}

/// A reference with its texts.
#[allow(inconsistent_fields)]
pub enum TargetView {
    Single { strain: Option<Seq<char>>, id: Seq<char> },
    AllInStrain { strain: Seq<char> },
}

impl View for SnapshotTarget {
    type V = TargetView;

    open spec fn view(&self) -> TargetView {
        match self {
            SnapshotTarget::Single { strain, id } => TargetView::Single {
                strain: opt_view(*strain),
                id: id@,
            },
            SnapshotTarget::AllInStrain { strain } => TargetView::AllInStrain { strain: strain@ },
        }
    }
}

/// What a text refers to, or the message of the error. The first `@`
/// separates strain and ID.
pub open spec fn parse_target(s: Seq<char>) -> Result<TargetView, Seq<char>> {
    if s.len() == 0 {
        Err("empty snapshot target — expected ID, strain@ID, or strain@"@)
    } else {
        match split_first(s, '@') {
            Some((strain, rest)) => if strain.len() == 0 {
                Err("missing strain before '@' in "@ + quoted_form(s))
            } else if !valid_strain_name(strain) {
                Err(
                    "invalid strain name "@ + quoted_form(strain)
                        + " in target — only [a-zA-Z0-9_] allowed"@,
                )
            } else if rest.len() == 0 || rest == "all"@ {
                Ok(TargetView::AllInStrain { strain })
            } else {
                match id_fault(encode_utf8(rest)) {
                    None => Ok(TargetView::Single { strain: Some(strain), id: rest }),
                    Some(f) => Err(
                        "invalid snapshot ID in "@ + quoted_form(s) + ": "@ + id_fault_text(
                            f,
                            rest,
                        ),
                    ),
                }
            },
            None => if id_ok(s) {
                Ok(TargetView::Single { strain: None, id: s })
            } else {
                Err("expected ID, strain@ID, or strain@ — got "@ + quoted_form(s))
            },
        }
    }
}

/// The text of a reference.
pub open spec fn target_text(t: TargetView) -> Seq<char> {
    match t {
        TargetView::Single { strain: Some(s), id } => qualified_text(s, id),
        TargetView::Single { strain: None, id } => id,
        TargetView::AllInStrain { strain } => strain + "@"@,
    }
}

impl SnapshotTarget {
    /// `true` for a reference to every snapshot of a strain.
    #[must_use]
    pub fn is_bulk(&self) -> (r: bool)
        ensures
            r == (self@ is AllInStrain),
    {
        match self {
            SnapshotTarget::AllInStrain { strain: _ } => true,
            SnapshotTarget::Single { strain: _, id: _ } => false,
        }
    }

    /// The text of the reference.
    pub fn to_text(&self) -> (r: String)
        ensures
            r@ == target_text(self@),
    {
        match self {
            SnapshotTarget::Single { strain, id } => match strain {
                Some(s) => cat3(s.as_str(), "@", id.as_str()),
                None => id.as_str().to_owned(),
            },
            SnapshotTarget::AllInStrain { strain } => cat2(strain.as_str(), "@"),
        }
    }

    /// Parse a reference.
    pub fn parse(s: &str) -> (r: Result<Self, RevenantError>)
        ensures
            match r {
                Ok(t) => parse_target(s@) is Ok && parse_target(s@)->Ok_0 == t@,
                Err(e) => parse_target(s@) is Err && e@ == ErrorView::Other(
                    parse_target(s@)->Err_0,
                ),
            },
    {
        if s.is_empty() {
            return Err(
                RevenantError::Other(
                    "empty snapshot target — expected ID, strain@ID, or strain@".to_owned(),
                ),
            );
        }
        match split_once(s, '@') {
            Some((strain, rest)) => {
                if strain.as_str().is_empty() {
                    return Err(
                        RevenantError::Other(
                            cat2("missing strain before '@' in ", quoted(s).as_str()),
                        ),
                    );
                }
                if !is_valid_strain_name(strain.as_str()) {
                    return Err(
                        RevenantError::Other(
                            cat3(
                                "invalid strain name ",
                                quoted(strain.as_str()).as_str(),
                                " in target — only [a-zA-Z0-9_] allowed",
                            ),
                        ),
                    );
                }
                if rest.as_str().is_empty() || same_text(rest.as_str(), "all") {
                    return Ok(SnapshotTarget::AllInStrain { strain });
                }
                match SnapshotId::from_string(rest.as_str()) {
                    Ok(id) => Ok(SnapshotTarget::Single { strain: Some(strain), id }),
                    Err(e) => Err(
                        RevenantError::Other(
                            cat4(
                                "invalid snapshot ID in ",
                                quoted(s).as_str(),
                                ": ",
                                e.message().as_str(),
                            ),
                        ),
                    ),
                }
            },
            None => match SnapshotId::from_string(s) {
                Ok(id) => Ok(SnapshotTarget::Single { strain: None, id }),
                Err(_) => Err(
                    RevenantError::Other(
                        cat2("expected ID, strain@ID, or strain@ — got ", quoted(s).as_str()),
                    ),
                ),
            },
        }
    }
}

impl core::str::FromStr for SnapshotTarget {
    type Err = RevenantError;

    fn from_str(s: &str) -> (r: Result<Self, Self::Err>)
        ensures
            match r {
                Ok(t) => parse_target(s@) is Ok && parse_target(s@)->Ok_0 == t@,
                Err(e) => parse_target(s@) is Err && e@ == ErrorView::Other(
                    parse_target(s@)->Err_0,
                ),
            },
    {
        SnapshotTarget::parse(s)
    }
}

/// Whether a reference can be spelled out: a strain has a valid name and an ID
/// is one.
pub open spec fn is_spellable(t: TargetView) -> bool {
    match t {
        TargetView::Single { strain: Some(s), id } => valid_strain_name(s) && id_ok(id),
        TargetView::Single { strain: None, id } => id_ok(id),
        TargetView::AllInStrain { strain } => valid_strain_name(strain),
    }
}

/// Parsing undoes spelling: the text of a reference refers to the same.
pub proof fn law_target_round_trip(t: TargetView)
    requires
        is_spellable(t),
    ensures
        parse_target(target_text(t)) is Ok,
        parse_target(target_text(t))->Ok_0 == t,
{
    reveal_strlit("@");
    assert("@"@ =~= seq!['@']);
    match t {
        TargetView::Single { strain: Some(s), id } => {
            let x = target_text(t);
            assert(x[s.len() as int] == '@');
            assert forall|j: int| 0 <= j < s.len() implies x[j] != '@' by {
                assert(x[j] == s[j]);
                assert(crate::snapshot::id::is_token_char(s[j]));
            }
            lemma_split_first_at(x, '@', s.len() as int);
            assert(x.subrange(0, s.len() as int) =~= s);
            assert(x.subrange(s.len() as int + 1, x.len() as int) =~= id);
            reveal_strlit("all");
            lemma_id_last(id);
        },
        TargetView::Single { strain: None, id } => {
            lemma_id_last(id);
            lemma_id_plain(id);
            lemma_split_first_none(id, '@');
        },
        TargetView::AllInStrain { strain } => {
            let x = target_text(t);
            assert(x[strain.len() as int] == '@');
            assert forall|j: int| 0 <= j < strain.len() implies x[j] != '@' by {
                assert(x[j] == strain[j]);
                assert(crate::snapshot::id::is_token_char(strain[j]));
            }
            lemma_split_first_at(x, '@', strain.len() as int);
            assert(x.subrange(0, strain.len() as int) =~= strain);
            assert(x.subrange(strain.len() as int + 1, x.len() as int) =~= Seq::empty());
        },
    }
}

/// A reference is to every snapshot of a strain exactly where its text ends in
/// `@` or `@all`.
pub proof fn law_bulk_by_ending(s: Seq<char>)
    requires
        parse_target(s) is Ok,
    ensures
        parse_target(s)->Ok_0 is AllInStrain <==> "@"@.is_suffix_of(s) || "@all"@.is_suffix_of(s),
{
    reveal_strlit("@");
    reveal_strlit("all");
    reveal_strlit("@all");
    let n = s.len() as int;
    match split_first(s, '@') {
        Some((strain, rest)) => {
            lemma_split_first_joins(s, '@');
            if rest.len() == 0 {
                assert("@"@ =~= s.subrange(n - 1, n));
            } else if rest == "all"@ {
                assert("@all"@ =~= s.subrange(n - 4, n));
            } else {
                lemma_id_last(rest);
                assert(s.last() == rest.last());
                assert("@"@.is_suffix_of(s) ==> s.last() == "@"@[0]);
                assert("@all"@.is_suffix_of(s) ==> s.last() == "@all"@[3]);
            }
        },
        None => {
            lemma_id_last(s);
            assert("@"@.is_suffix_of(s) ==> s.last() == "@"@[0]);
            assert("@all"@.is_suffix_of(s) ==> s.last() == "@all"@[3]);
        },
    }
}

} // verus!
