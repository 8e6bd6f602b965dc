//! What the health checks report, and what they leave unreported.

use vstd::prelude::*;
use vstd::string::*;

use crate::assoc::{distinct_keys, lemma_lookup_distinct, lemma_lookup_index, lookup};
use crate::backend::FsState;
use crate::check::{
    all_subvols, claims, is_claimed, is_orphaned_entry, nested_finding, nested_findings,
    nested_lines, orphan_finding, sidecar_finding, FindingView, Severity,
};
use crate::config::{valid_strain_name, ConfigView};
use crate::laws::listing::{law_listed_details, law_parts};
use crate::laws::markers::law_strain_subvolumes;
use crate::lines::{law_sorted_texts, sorted_texts};
use crate::metadata::{
    is_orphan, law_sidecar_name_round_trip, sidecar_name, sidecar_parts, snapshot_suffix,
};
use crate::path::{path_join, path_text, PathView};
use crate::snapshot::discovery::{discovered, is_snapshot, strain_parts};
use crate::snapshot::id::{id_ok, is_token, law_parse_undoes_naming, name_text, parse_name};
use crate::snapshot::info::InfoView;

verus! {

/// Whether the strains of a configuration have distinct valid names.
pub open spec fn named_well(c: ConfigView) -> bool {
    &&& distinct_keys(c.strain)
    &&& forall|i: int| 0 <= i < c.strain.len() ==> valid_strain_name((#[trigger] c.strain[i]).0)
}

proof fn lemma_claim(
    c: ConfigView,
    subvol: Seq<char>,
    strain: Seq<char>,
    id: Seq<char>,
)
    requires
        named_well(c),
        is_token(strain),
        id_ok(id),
        subvol.len() > 0,
    ensures
        is_claimed(c, subvol + "-"@ + strain + "-"@ + id) <==> lookup(c.strain, strain) is Some
            && strain_parts(c, lookup(c.strain, strain)->0).contains(subvol),
{
    let name = subvol + "-"@ + strain + "-"@ + id;
    assert(name == name_text(subvol, strain, id));
    if is_claimed(c, name) {
        let (i, k) = choose|i: int, k: int| #[trigger] claims(c, i, k, name);
        let (s, parts) = (c.strain[i].0, strain_parts(c, c.strain[i].1));
        let prefix = parts[k] + "-"@ + s + "-"@;
        let rest = name.subrange(prefix.len() as int, name.len() as int);
        assert(name =~= prefix + rest);
        assert(name =~= name_text(parts[k], s, rest));
        lemma_parts_of_name(parts[k], s, rest, subvol, strain, id);
        lemma_lookup_distinct(c.strain, i);
        assert(parts.contains(subvol));
    }
    if lookup(c.strain, strain) is Some && strain_parts(
        c,
        lookup(c.strain, strain)->0,
    ).contains(subvol) {
        let i = lemma_lookup_index(c.strain, strain);
        let parts = strain_parts(c, c.strain[i].1);
        let k = choose|k: int| 0 <= k < parts.len() && parts[k] == subvol;
        let prefix = parts[k] + "-"@ + strain + "-"@;
        assert(prefix =~= name.subrange(0, prefix.len() as int));
        assert(name.subrange(prefix.len() as int, name.len() as int) =~= id);
        assert(claims(c, i, k, name));
    }
}

/// A name has its parts in one way only.
proof fn lemma_parts_of_name(
    p: Seq<char>,
    s: Seq<char>,
    i: Seq<char>,
    q: Seq<char>,
    t: Seq<char>,
    j: Seq<char>,
)
    requires
        name_text(p, s, i) == name_text(q, t, j),
        is_token(s),
        is_token(t),
        id_ok(i),
        id_ok(j),
        q.len() > 0,
    ensures
        p == q,
        s == t,
        i == j,
{
    let name = name_text(q, t, j);
    law_parse_undoes_naming(name, q, t, j);
    if p.len() > 0 {
        law_parse_undoes_naming(name, p, s, i);
    } else {
        crate::snapshot::id::law_trailing_id(name, "-"@ + s, i);
        crate::snapshot::id::law_trailing_id(name, q + "-"@ + t, j);
        reveal_strlit("-");
        assert("-"@ =~= seq!['-']);
        assert(name =~= ("-"@ + s) + seq!['-'] + i);
        assert(name =~= (q + "-"@ + t) + seq!['-'] + j);
        let (a, b) = ("-"@ + s, q + "-"@ + t);
        assert(a == b);
        let k = q.len() as int;
        assert(b[k] == '-');
        assert(a[k] == s[k - 1]);
        assert(crate::snapshot::id::is_token_char(s[k - 1]));
    }
}

/// An entry of the snapshot directory is reported as orphaned exactly if it is
/// a subvolume named `<subvol>-<strain>-<id>`, the strain is not `DELETE`, and
/// no configured strain of that name has the subvolume, be it among its own or
/// as the EFI staging subvolume that it syncs.
pub proof fn law_orphaned_entries(
    st: FsState,
    c: ConfigView,
    dir: PathView,
    subvol: Seq<char>,
    strain: Seq<char>,
    id: Seq<char>,
)
    requires
        named_well(c),
        subvol.len() > 0,
        is_token(strain),
        id_ok(id),
    ensures
        is_orphaned_entry(st, c, dir, subvol + "-"@ + strain + "-"@ + id) <==> {
            &&& st.subvols.contains_key(dir.push(subvol + "-"@ + strain + "-"@ + id))
            &&& strain != "DELETE"@
            &&& lookup(c.strain, strain) matches Some(s) ==> !s.subvolumes.contains(subvol) && !(
            s.efi && c.sys.efi_enabled && subvol == c.sys.staging_subvol)
        },
{
    let name = subvol + "-"@ + strain + "-"@ + id;
    lemma_claim(c, subvol, strain, id);
    law_parse_undoes_naming(name, subvol, strain, id);
    crate::snapshot::id::lemma_id_last(id);
    reveal_strlit("/");
    reveal_strlit("..");
    reveal_strlit("-");
    assert(name.len() > 2);
    if lookup(c.strain, strain) is Some {
        law_parts(c, strain, subvol);
    }
}

/// Nothing else is reported as orphaned: an entry that is has such a name.
pub proof fn law_orphans_look_like_snapshots(
    st: FsState,
    c: ConfigView,
    dir: PathView,
    name: Seq<char>,
)
    requires
        is_orphaned_entry(st, c, dir, name),
    ensures
        exists|subvol: Seq<char>, strain: Seq<char>, id: Seq<char>|
            subvol.len() > 0 && is_token(strain) && id_ok(id) && name == #[trigger] name_text(
                subvol,
                strain,
                id,
            ),
        orphan_finding(c, name).severity == Severity::Warning,
        name.is_prefix_of(orphan_finding(c, name).message),
        orphan_finding(c, name).hint is Some,
{
    let (subvol, strain, id) = parse_name(name)->Some_0;
    law_parse_undoes_naming(name, subvol, strain, id);
    assert(name == name_text(subvol, strain, id));
    let m = orphan_finding(c, name).message;
    assert(name =~= m.subrange(0, name.len() as int));
}

/// No part of a snapshot that a listing holds is reported as orphaned.
pub proof fn law_listed_is_not_orphaned(
    st: FsState,
    c: ConfigView,
    toplevel: PathView,
    all: Seq<InfoView>,
    i: int,
    k: int,
)
    requires
        named_well(c),
        discovered(st, c, toplevel, all),
        0 <= i < all.len(),
        0 <= k < all[i].subvolumes.len(),
    ensures
        !is_orphaned_entry(
            st,
            c,
            path_join(toplevel, c.sys.snapshot_subvol),
            all[i].subvolumes[k] + "-"@ + all[i].strain + "-"@ + all[i].id,
        ),
{
    let s = all[i];
    let p = s.subvolumes[k];
    assert(is_snapshot(st, c, toplevel, s.strain, s.id));
    law_listed_details(st, c, toplevel, all, i, p);
    let x = lemma_lookup_index(c.strain, s.strain);
    let parts = strain_parts(c, c.strain[x].1);
    let y = choose|y: int| 0 <= y < parts.len() && parts[y] == p;
    let name = p + "-"@ + s.strain + "-"@ + s.id;
    let prefix = parts[y] + "-"@ + s.strain + "-"@;
    assert(prefix =~= name.subrange(0, prefix.len() as int));
    assert(name.subrange(prefix.len() as int, name.len() as int) =~= s.id);
    assert(claims(c, x, y, name));
}

/// A sidecar is reported as orphaned exactly if it is a file of the snapshot
/// directory named `<strain>-<id>.meta.toml` and no subvolume there has a name
/// that ends in `-<strain>-<id>`.
pub proof fn law_orphaned_sidecars(
    st: FsState,
    dir: PathView,
    strain: Seq<char>,
    id: Seq<char>,
)
    requires
        is_token(strain),
        id_ok(id),
    ensures
        is_orphan(st, dir, strain + "-"@ + id + ".meta.toml"@) <==> {
            &&& st.files.contains_key(dir.push(strain + "-"@ + id + ".meta.toml"@))
            &&& forall|x: Seq<char>|
                !st.subvols.contains_key(
                    dir.push(#[trigger] (x + ("-"@ + strain + "-"@ + id))),
                )
        },
{
    let name = strain + "-"@ + id + ".meta.toml"@;
    let end = "-"@ + strain + "-"@ + id;
    law_sidecar_name_round_trip(name, strain, id);
    assert(name == sidecar_name(strain, id));
    assert(snapshot_suffix(strain, id) == end);
    if is_orphan(st, dir, name) {
        assert forall|x: Seq<char>| !st.subvols.contains_key(dir.push(#[trigger] (x + end))) by {
            let n = x + end;
            if st.subvols.contains_key(dir.push(n)) {
                assert(end =~= n.subrange(n.len() - end.len(), n.len() as int));
            }
        }
    }
    if st.files.contains_key(dir.push(name)) && forall|x: Seq<char>|
        !st.subvols.contains_key(dir.push(#[trigger] (x + end))) {
        assert forall|n: Seq<char>| #[trigger] st.subvols.contains_key(dir.push(n)) implies
            !end.is_suffix_of(n) by {
            if end.is_suffix_of(n) {
                let x = n.subrange(0, n.len() - end.len());
                assert(n =~= x + end);
            }
        }
    }
}

/// No other file is reported as an orphaned sidecar.
pub proof fn law_orphans_look_like_sidecars(st: FsState, dir: PathView, name: Seq<char>)
    requires
        is_orphan(st, dir, name),
    ensures
        exists|strain: Seq<char>, id: Seq<char>|
            is_token(strain) && id_ok(id) && name == #[trigger] sidecar_name(strain, id),
        sidecar_finding(name).severity == Severity::Warning,
        name.is_prefix_of(sidecar_finding(name).message),
{
    let (strain, id) = sidecar_parts(name)->Some_0;
    law_sidecar_name_round_trip(name, strain, id);
    assert(name == sidecar_name(strain, id));
    let m = sidecar_finding(name).message;
    assert(name =~= m.subrange(0, name.len() as int));
}

/// A check for nested subvolumes looks at every subvolume that a strain has,
/// and at no other.
pub proof fn law_checked_subvolumes(c: ConfigView, b: Seq<char>)
    ensures
        all_subvols(c).contains(b) <==> exists|i: int|
            0 <= i < c.strain.len() && (#[trigger] c.strain[i]).1.subvolumes.contains(b),
{
    let list = strain_bases_of(c);
    law_strain_subvolumes(c.strain, c.strain.len(), b);
    law_sorted_texts(list);
    broadcast use vstd::seq_lib::group_to_multiset_ensures;

    assert(sorted_texts(list).contains(b) <==> sorted_texts(list).to_multiset().count(b) > 0);
    assert(list.contains(b) <==> list.to_multiset().count(b) > 0);
}

spec fn strain_bases_of(c: ConfigView) -> Seq<Seq<char>> {
    crate::cleanup::recovery::strain_bases(c.strain, c.strain.len())
}

/// Whether `part` occurs in `s`.
pub open spec fn occurs(part: Seq<char>, s: Seq<char>) -> bool {
    exists|a: Seq<char>, b: Seq<char>| s == #[trigger] (a + part + b)
}

proof fn lemma_line_occurs(subvol: Seq<char>, path: PathView, nested: Seq<PathView>, k: int)
    requires
        0 <= k < nested.len(),
    ensures
        occurs(
            subvol + "/"@ + path_text(nested[k].skip(path.len() as int)),
            nested_lines(subvol, path, nested),
        ),
    decreases nested.len(),
{
    let all = nested_lines(subvol, path, nested);
    let first = nested_lines(subvol, path, nested.drop_last());
    let last = path_text(nested.last().skip(path.len() as int));
    let part = subvol + "/"@ + path_text(nested[k].skip(path.len() as int));
    if k == nested.len() - 1 {
        assert(all =~= (first + "\n    "@) + part + Seq::empty());
    } else {
        lemma_line_occurs(subvol, path, nested.drop_last(), k);
        let (a, b) = choose|a: Seq<char>, b: Seq<char>| first == #[trigger] (a + part + b);
        assert(all =~= a + part + (b + "\n    "@ + subvol + "/"@ + last));
    }
}

/// A subvolume with others nested in it is reported, for information, with each
/// of them by its place in it; one without is not.
pub proof fn law_nested_are_reported(
    toplevel: PathView,
    subs: Seq<Seq<char>>,
    nested: Seq<Seq<PathView>>,
    k: int,
)
    requires
        nested.len() == subs.len(),
        0 <= k < subs.len(),
    ensures
        nested[k].len() > 0 ==> exists|i: int|
            0 <= i < nested_findings(toplevel, subs, nested).len()
                && is_report(
                #[trigger] nested_findings(toplevel, subs, nested)[i],
                subs[k],
                path_join(toplevel, subs[k]),
                nested[k],
            ),
        nested_findings(toplevel, subs, nested).len() <= subs.len(),
        (forall|j: int| 0 <= j < nested.len() ==> (#[trigger] nested[j]).len() == 0)
            ==> nested_findings(toplevel, subs, nested).len() == 0,
        forall|i: int|
            0 <= i < nested_findings(toplevel, subs, nested).len() ==> exists|j: int|
                0 <= j < subs.len() && (#[trigger] nested[j]).len() > 0 && is_report(
                    #[trigger] nested_findings(toplevel, subs, nested)[i],
                    subs[j],
                    path_join(toplevel, subs[j]),
                    nested[j],
                ),
    decreases subs.len(),
{
    let all = nested_findings(toplevel, subs, nested);
    let (u, w) = (subs.drop_last(), nested.drop_last());
    let first = nested_findings(toplevel, u, w);
    let n = subs.len() - 1;
    let f = nested_finding(subs.last(), path_join(toplevel, subs.last()), nested.last());
    lemma_report(subs[n], path_join(toplevel, subs[n]), nested[n]);
    if n > 0 {
        law_nested_are_reported(toplevel, u, w, if k < n { k } else { 0 });
    }
    assert(forall|j: int| 0 <= j < n ==> #[trigger] w[j] == nested[j]);
    assert(forall|j: int| 0 <= j < n ==> #[trigger] u[j] == subs[j]);
    if nested[k].len() > 0 {
        if k < n {
            let i = choose|i: int|
                0 <= i < first.len() && is_report(
                    #[trigger] first[i],
                    u[k],
                    path_join(toplevel, u[k]),
                    w[k],
                );
            assert(all[i] == first[i]);
        } else {
            assert(all[first.len() as int] == f);
        }
    }
    if forall|j: int| 0 <= j < nested.len() ==> (#[trigger] nested[j]).len() == 0 {
        assert(nested[n].len() == 0);
        assert(forall|j: int| 0 <= j < w.len() ==> (#[trigger] w[j]).len() == 0);
        if n == 0 {
            assert(first.len() == 0);
        }
    }
    assert forall|i: int| 0 <= i < all.len() implies exists|j: int|
        0 <= j < subs.len() && (#[trigger] nested[j]).len() > 0 && is_report(
            #[trigger] all[i],
            subs[j],
            path_join(toplevel, subs[j]),
            nested[j],
        ) by {
        if i < first.len() {
            assert(all[i] == first[i]);
            let j = choose|j: int|
                0 <= j < u.len() && (#[trigger] w[j]).len() > 0 && is_report(
                    first[i],
                    u[j],
                    path_join(toplevel, u[j]),
                    w[j],
                );
            assert(nested[j] == w[j]);
            assert(is_report(all[i], subs[j], path_join(toplevel, subs[j]), nested[j]));
        } else {
            assert(all[i] == f);
            assert(nested[n].len() > 0);
        }
    }
}

/// Whether `f` informs of the subvolumes `nested` in `subvol`, which is at
/// `path`: it names the subvolume and the place of each in it.
pub open spec fn is_report(
    f: FindingView,
    subvol: Seq<char>,
    path: PathView,
    nested: Seq<PathView>,
) -> bool {
    &&& f.severity == Severity::Info
    &&& ("'"@ + subvol + "'"@).is_prefix_of(f.message)
    &&& forall|k: int|
        0 <= k < nested.len() ==> occurs(
            subvol + "/"@ + path_text((#[trigger] nested[k]).skip(path.len() as int)),
            f.message,
        )
}

proof fn lemma_report(subvol: Seq<char>, path: PathView, nested: Seq<PathView>)
    ensures
        is_report(nested_finding(subvol, path, nested), subvol, path, nested),
{
    let f = nested_finding(subvol, path, nested);
    let lines = nested_lines(subvol, path, nested);
    let open = "' contains nested subvolumes whose contents are not versioned by snapshots:"@;
    let head = "'"@ + subvol + open;
    reveal_strlit("'");
    reveal_strlit("' contains nested subvolumes whose contents are not versioned by snapshots:");
    assert(f.message =~= head + lines);
    let start = "'"@ + subvol + "'"@;
    assert(start =~= f.message.subrange(0, start.len() as int));
    assert forall|k: int| 0 <= k < nested.len() implies occurs(
        subvol + "/"@ + path_text((#[trigger] nested[k]).skip(path.len() as int)),
        f.message,
    ) by {
        lemma_line_occurs(subvol, path, nested, k);
        let part = subvol + "/"@ + path_text(nested[k].skip(path.len() as int));
        let (a, b) = choose|a: Seq<char>, b: Seq<char>| lines == #[trigger] (a + part + b);
        assert(f.message =~= (head + a) + part + b);
    }
}

/// The report of an orphaned entry says why: that the strain is not known, that
/// no strain has the subvolume, or that the strain no longer covers it. It is a
/// warning.
pub proof fn law_why_orphaned(
    c: ConfigView,
    subvol: Seq<char>,
    strain: Seq<char>,
    id: Seq<char>,
)
    requires
        subvol.len() > 0,
        is_token(strain),
        id_ok(id),
    ensures
        ({
            let name = subvol + "-"@ + strain + "-"@ + id;
            let f = crate::check::orphan_finding(c, name);
            let known = (exists|i: int|
                0 <= i < c.strain.len() && (#[trigger] c.strain[i]).1.subvolumes.contains(subvol))
                || (c.sys.efi_enabled && subvol == c.sys.staging_subvol);
            &&& f.severity == Severity::Warning
            &&& f.check == "orphaned-snapshot"@
            &&& lookup(c.strain, strain) is None ==> f.message == name + "  ("@ + (
            "unknown strain '"@ + strain + "'"@) + ")"@
            &&& lookup(c.strain, strain) is Some && !known ==> f.message == name + "  ("@ + (
            "strain '"@ + strain + "' is defined but does not include subvolume '"@ + subvol
                + "'"@) + ")"@
            &&& lookup(c.strain, strain) is Some && known ==> f.message == name + "  ("@
                + "strain definition no longer covers this snapshot"@ + ")"@
        }),
{
    let name = subvol + "-"@ + strain + "-"@ + id;
    assert(name == name_text(subvol, strain, id));
    law_parse_undoes_naming(name, subvol, strain, id);
}

} // verus!
