//! The user's `Path` variable as a `;`-separated list of directories, and the
//! rule that puts the installation directory in front of it.
use vstd::prelude::*;
use vstd::string::StringExecFns;
use crate::text::{
    lemma_split_after_sep, lemma_split_pieces_avoid_sep, lemma_split_without_sep, split, split_on,
};

verus! {

/// The file name of the script that writes the earlier `Path` value back.
pub const BACKUP_SCRIPT_NAME: &'static str = "HKCU.Env.Path.backup.bat";

/// The restore script up to the saved `Path` value.
pub const BACKUP_SCRIPT_HEAD: &'static str =
    "@echo off\nreg add \"HKEY_CURRENT_USER\\Environment\" /v Path /t REG_EXPAND_SZ /d \"";

/// The restore script after the saved `Path` value.
pub const BACKUP_SCRIPT_TAIL: &'static str = "\" /f\necho Path user environment variable restored.\npause";

/// The separator between the directories of a `Path` value.
pub open spec fn list_sep() -> char {
    ';'
}

/// The pieces of `parts` that are not empty, in order.
pub open spec fn keep_nonempty(parts: Seq<Seq<char>>) -> Seq<Seq<char>> {
    parts.filter(|p: Seq<char>| p.len() > 0)
}

/// The directories that a `Path` value lists: its non-empty `;`-separated pieces.
pub open spec fn path_entries_of(path: Seq<char>) -> Seq<Seq<char>> {
    keep_nonempty(split_on(path, list_sep()))
}

/// `parts` written one after the other with `sep` between each two.
pub open spec fn join_with(parts: Seq<Seq<char>>, sep: char) -> Seq<char>
    decreases parts.len(),
{
    if parts.len() == 0 {
        Seq::empty()
    } else if parts.len() == 1 {
        parts[0]
    } else {
        join_with(parts.drop_last(), sep).push(sep) + parts.last()
    }
}

/// The new `Path` value that registers `dir`, or `None` where `dir` is listed
/// already and the value stays as it is.
pub open spec fn path_update(path: Seq<char>, dir: Seq<char>) -> Option<Seq<char>> {
    let entries = path_entries_of(path);
    if entries.contains(dir) {
        None
    } else {
        Some(join_with(seq![dir] + entries, list_sep()))
    }
}

/// The `Path` value once `dir` has been registered.
pub open spec fn after_register(path: Seq<char>, dir: Seq<char>) -> Seq<char> {
    match path_update(path, dir) {
        Some(p) => p,
        None => path,
    }
}

/// The pieces of `parts` that are not empty.
pub fn nonempty_pieces(parts: &Vec<String>) -> (r: Vec<String>)
    ensures
        r.deep_view() == keep_nonempty(parts.deep_view()),
{
    let mut kept: Vec<String> = Vec::new();
    let mut i: usize = 0;
    proof {
        reveal(Seq::filter);
    }
    assert(parts.deep_view().subrange(0, 0) =~= Seq::<Seq<char>>::empty());
    while i < parts.len()
        invariant
            i <= parts.len(),
            kept.deep_view() == keep_nonempty(parts.deep_view().subrange(0, i as int)),
        decreases parts.len() - i,
    {
        let ghost all = parts.deep_view();
        let ghost before = kept.deep_view();
        assert(all.subrange(0, i + 1).drop_last() =~= all.subrange(0, i as int));
        assert(all.subrange(0, i + 1).last() == parts[i as int]@);
        proof {
            reveal(Seq::filter);
        }
        assert(keep_nonempty(all.subrange(0, i + 1)) == if all[i as int].len() > 0 {
            before.push(all[i as int])
        } else {
            before
        });
        if !parts[i].as_str().is_empty() {
            kept.push(parts[i].clone());
            assert(kept.deep_view() =~= before.push(parts[i as int]@));
        }
        i += 1;
    }
    assert(parts.deep_view().subrange(0, parts.len() as int) =~= parts.deep_view());
    kept
}

/// The directories that the `Path` value `path` lists.
pub fn path_entries(path: &str) -> (r: Vec<String>)
    ensures
        r.deep_view() == path_entries_of(path@),
{
    let pieces = split(path, ';');
    nonempty_pieces(&pieces)
}

/// `parts` joined with `;` between each two.
pub fn join_entries(parts: &Vec<String>) -> (r: String)
    ensures
        r@ == join_with(parts.deep_view(), list_sep()),
{
    let mut joined = String::new();
    let mut i: usize = 0;
    assert(parts.deep_view().subrange(0, 0) =~= Seq::<Seq<char>>::empty());
    while i < parts.len()
        invariant
            i <= parts.len(),
            joined@ == join_with(parts.deep_view().subrange(0, i as int), list_sep()),
        decreases parts.len() - i,
    {
        let ghost all = parts.deep_view();
        assert(all.subrange(0, i + 1).drop_last() =~= all.subrange(0, i as int));
        if i > 0 {
            proof {
                reveal_strlit(";");
            }
            joined.append(";");
            assert(";"@ =~= seq![';']);
        }
        joined.append(parts[i].as_str());
        assert(joined@ =~= join_with(all.subrange(0, i + 1), list_sep()));
        i += 1;
    }
    assert(parts.deep_view().subrange(0, parts.len() as int) =~= parts.deep_view());
    joined
}

/// The new `Path` value that puts `dir` in front of the directories that
/// `path` lists, or `None` where `path` lists `dir` already.
pub fn updated_path(path: &str, dir: &str) -> (r: Option<String>)
    ensures
        r matches Some(p) ==> path_update(path@, dir@) == Some(p@),
        r is None ==> path_update(path@, dir@) is None,
{
    let entries = path_entries(path);
    let wanted = dir.to_owned();
    let mut i: usize = 0;
    while i < entries.len()
        invariant
            i <= entries.len(),
            wanted@ == dir@,
            entries.deep_view() == path_entries_of(path@),
            forall|k: int| 0 <= k < i ==> entries.deep_view()[k] != dir@,
        decreases entries.len() - i,
    {
        if entries[i] == wanted {
            assert(entries.deep_view()[i as int] == dir@);
            assert(entries.deep_view().contains(dir@));
            return None;
        }
        i += 1;
    }
    assert(!path_entries_of(path@).contains(dir@));
    let mut listed: Vec<String> = Vec::new();
    listed.push(wanted);
    let mut k: usize = 0;
    while k < entries.len()
        invariant
            k <= entries.len(),
            listed.deep_view() == seq![dir@] + entries.deep_view().subrange(0, k as int),
        decreases entries.len() - k,
    {
        let ghost before = listed.deep_view();
        listed.push(entries[k].clone());
        assert(listed.deep_view() =~= before.push(entries.deep_view()[k as int]));
        assert(listed.deep_view() =~= seq![dir@] + entries.deep_view().subrange(0, k + 1));
        k += 1;
    }
    assert(entries.deep_view().subrange(0, entries.len() as int) =~= entries.deep_view());
    Some(join_entries(&listed))
}

/// A batch script that sets the user's `Path` variable back to `saved`.
pub fn backup_script(saved: &str) -> (r: String)
    ensures
        r@ == BACKUP_SCRIPT_HEAD@ + saved@ + BACKUP_SCRIPT_TAIL@,
{
    let mut script = String::from_str(BACKUP_SCRIPT_HEAD);
    script.append(saved);
    script.append(BACKUP_SCRIPT_TAIL);
    script
}

/// Pieces that are all non-empty are all kept.
proof fn lemma_keep_all_nonempty(parts: Seq<Seq<char>>)
    requires
        forall|i: int| 0 <= i < parts.len() ==> (#[trigger] parts[i]).len() > 0,
    ensures
        keep_nonempty(parts) == parts,
    decreases parts.len(),
{
    reveal(Seq::filter);
    if parts.len() > 0 {
        lemma_keep_all_nonempty(parts.drop_last());
        assert(parts[parts.len() - 1] == parts.last());
        assert(parts.drop_last().push(parts.last()) =~= parts);
    }
}

/// What is kept is non-empty, and free of `sep` where every piece is.
proof fn lemma_kept_pieces(parts: Seq<Seq<char>>, sep: char)
    requires
        forall|i: int| 0 <= i < parts.len() ==> !(#[trigger] parts[i]).contains(sep),
    ensures
        forall|i: int|
            0 <= i < keep_nonempty(parts).len() ==> (#[trigger] keep_nonempty(parts)[i]).len() > 0
                && !keep_nonempty(parts)[i].contains(sep),
    decreases parts.len(),
{
    reveal(Seq::filter);
    if parts.len() > 0 {
        assert forall|i: int| 0 <= i < parts.drop_last().len() implies !(
        #[trigger] parts.drop_last()[i]).contains(sep) by {
            assert(parts.drop_last()[i] == parts[i]);
        }
        lemma_kept_pieces(parts.drop_last(), sep);
        assert(parts[parts.len() - 1] == parts.last());
        let kept = keep_nonempty(parts);
        let earlier = keep_nonempty(parts.drop_last());
        assert(kept == if parts.last().len() > 0 {
            earlier.push(parts.last())
        } else {
            earlier
        });
        assert forall|i: int| 0 <= i < kept.len() implies (#[trigger] kept[i]).len() > 0
            && !kept[i].contains(sep) by {
            if i < earlier.len() {
                assert(kept[i] == earlier[i]);
            }
        }
    }
}

/// Splitting a join of non-empty pieces without the separator gives the
/// pieces back.
proof fn lemma_split_join(parts: Seq<Seq<char>>, sep: char)
    requires
        parts.len() >= 1,
        forall|i: int| 0 <= i < parts.len() ==> !(#[trigger] parts[i]).contains(sep),
    ensures
        split_on(join_with(parts, sep), sep) == parts,
    decreases parts.len(),
{
    if parts.len() == 1 {
        lemma_split_without_sep(parts[0], sep);
        assert(seq![parts[0]] =~= parts);
    } else {
        let init = parts.drop_last();
        assert forall|i: int| 0 <= i < init.len() implies !(#[trigger] init[i]).contains(sep) by {
            assert(init[i] == parts[i]);
        }
        lemma_split_join(init, sep);
        assert(parts[parts.len() - 1] == parts.last());
        lemma_split_after_sep(join_with(init, sep), parts.last(), sep);
        assert(init.push(parts.last()) =~= parts);
    }
}

/// The directories listed by the `Path` value that registers `dir`: `dir`
/// first, then those of `path` in their order.
proof fn lemma_update_entries(path: Seq<char>, dir: Seq<char>)
    requires
        dir.len() > 0,
        !dir.contains(list_sep()),
    ensures
        path_entries_of(join_with(seq![dir] + path_entries_of(path), list_sep())) == seq![dir]
            + path_entries_of(path),
{
    let entries = path_entries_of(path);
    let listed = seq![dir] + entries;
    lemma_split_pieces_avoid_sep(path, list_sep());
    lemma_kept_pieces(split_on(path, list_sep()), list_sep());
    assert forall|i: int| 0 <= i < listed.len() implies (#[trigger] listed[i]).len() > 0
        && !listed[i].contains(list_sep()) by {
        if i > 0 {
            assert(listed[i] == entries[i - 1]);
        }
    }
    lemma_split_join(listed, list_sep());
    lemma_keep_all_nonempty(listed);
}

/// Registering a directory that is not empty and holds no `;` leaves it
/// listed, and registering it a second time changes nothing. Where it was not
/// listed before, it ends up first and only once, ahead of the earlier
/// directories in their order.
pub proof fn lemma_register_twice(path: Seq<char>, dir: Seq<char>)
    requires
        dir.len() > 0,
        !dir.contains(list_sep()),
    ensures
        path_entries_of(after_register(path, dir)).contains(dir),
        path_update(after_register(path, dir), dir) is None,
        !path_entries_of(path).contains(dir) ==> path_entries_of(after_register(path, dir))
            == seq![dir] + path_entries_of(path),
{
    if !path_entries_of(path).contains(dir) {
        lemma_update_entries(path, dir);
        assert((seq![dir] + path_entries_of(path))[0] == dir);
    }
}

} // verus!
