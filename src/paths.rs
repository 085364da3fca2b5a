//! Path arithmetic: joining paths under a root, and the members of package
//! archives that land in the system root.
use crate::repository::{join_path, push_path};
use crate::text::same_text;
use vstd::prelude::*;
use vstd::string::*;

verus! {

/// `s` without its leading `/` characters.
pub open spec fn strip_slashes(s: Seq<char>) -> Seq<char>
    decreases s.len(),
{
    if s.len() > 0 && s[0] == '/' {
        strip_slashes(s.drop_first())
    } else {
        s
    }
}

/// `other` placed under `base`, even when `other` is absolute.
pub open spec fn concat(base: Seq<char>, other: Seq<char>) -> Seq<char> {
    join_path(base, strip_slashes(other))
}

/// Concatenates the given paths: unlike a plain join, an absolute `other`
/// does not replace `base` but is placed under it.
pub fn concat_paths(base: &str, other: &str) -> (r: String)
    ensures
        r@ == concat(base@, other@),
{
    let n = other.unicode_len();
    let mut start: usize = 0;
    assert(other@.subrange(0, n as int) =~= other@);
    while start < n && other.get_char(start) == '/'
        invariant
            n == other@.len(),
            start <= n,
            strip_slashes(other@.subrange(start as int, n as int)) == strip_slashes(other@),
        decreases n - start,
    {
        proof {
            let t = other@.subrange(start as int, n as int);
            assert(t.drop_first() =~= other@.subrange(start + 1, n as int));
        }
        start = start + 1;
    }
    let rest = other.substring_char(start, n);
    proof {
        if rest@.len() > 0 {
            assert(rest@[0] == other@[start as int]);
        }
    }
    let mut out = String::from_str(base);
    push_path(&mut out, rest);
    out
}

/// A path placed under `base` starts with `base` followed by a separator,
/// whatever the other path is.
pub proof fn lemma_concat_under_base(base: Seq<char>, other: Seq<char>)
    ensures
        concat(base, other).len() > base.len() || base.len() == 0 || base.last() == '/',
        concat(base, other).subrange(0, base.len() as int) == base,
{
    let r = concat(base, other);
    assert(r.subrange(0, base.len() as int) =~= base);
}

/// Whether `s` has a component `..`.
pub open spec fn has_parent_ref(s: Seq<char>) -> bool {
    exists|i: int|
        0 <= i && i + 2 <= s.len() && #[trigger] s[i] == '.' && s[i + 1] == '.' && (i == 0 || s[i
            - 1] == '/') && (i + 2 == s.len() || s[i + 2] == '/')
}

/// Whether an archive member named `s` stays inside the directory it is
/// unpacked to: it is relative and has no `..` component.
pub open spec fn is_safe_member(s: Seq<char>) -> bool {
    !(s.len() > 0 && s[0] == '/') && !has_parent_ref(s)
}

/// Whether the member named `entry` stays inside the directory it is
/// unpacked to.
pub fn member_is_safe(entry: &str) -> (r: bool)
    ensures
        r == is_safe_member(entry@),
{
    let n = entry.unicode_len();
    if n > 0 && entry.get_char(0) == '/' {
        return false;
    }
    let mut i: usize = 0;
    while i < n
        invariant
            i <= n,
            n == entry@.len(),
            !(n > 0 && entry@[0] == '/'),
            forall|k: int|
                0 <= k < i && k + 2 <= n ==> !(#[trigger] entry@[k] == '.' && entry@[k + 1] == '.' && (
                k == 0 || entry@[k - 1] == '/') && (k + 2 == n || entry@[k + 2] == '/')),
        decreases n - i,
    {
        if i + 1 < n && entry.get_char(i) == '.' && entry.get_char(i + 1) == '.' && (i == 0 || entry.get_char(i - 1)
            == '/') && (i + 2 == n || entry.get_char(i + 2) == '/') {
            return false;
        }
        i = i + 1;
    }
    true
}

/// The path, relative to the system root, of the archive member named
/// `entry`: the part after a leading `data/`, when it is not empty.
pub open spec fn data_path(entry: Seq<char>) -> Option<Seq<char>> {
    if entry.len() > 5 && entry.subrange(0, 5) == "data/"@ {
        Some(entry.skip(5))
    } else {
        None
    }
}

/// The failures of the installation of an archive.
#[derive(Clone, Copy, Debug, PartialEq, Eq)]
pub enum InstallError {
    /// A member of the archive would land outside the system root.
    UnsafePath,
}

/// Returns the path, relative to the system root, at which the archive
/// member named `entry` is installed: `None` for a member outside `data/` or
/// for `data/` itself. Fails with `UnsafePath` for a member that would land
/// outside the destination.
pub fn data_member_path(entry: &str) -> (r: Result<Option<String>, InstallError>)
    ensures
        match r {
            Err(e) => !is_safe_member(entry@) && e == InstallError::UnsafePath,
            Ok(Some(p)) => is_safe_member(entry@) && data_path(entry@) == Some(p@),
            Ok(None) => is_safe_member(entry@) && data_path(entry@) is None,
        },
{
    if !member_is_safe(entry) {
        return Err(InstallError::UnsafePath);
    }
    let n = entry.unicode_len();
    if n <= 5 {
        return Ok(None);
    }
    let head = entry.substring_char(0, 5);
    proof {
        reveal_strlit("data/");
    }
    if !same_text(head, "data/") {
        return Ok(None);
    }
    let rest = entry.substring_char(5, n);
    Ok(Some(String::from_str(rest)))
}

/// The installed paths of the archive members `entries`, in order.
pub open spec fn data_paths(entries: Seq<Seq<char>>) -> Seq<Seq<char>>
    decreases entries.len(),
{
    if entries.len() == 0 {
        Seq::<Seq<char>>::empty()
    } else {
        let prev = data_paths(entries.drop_last());
        match data_path(entries.last()) {
            Some(p) => prev.push(p),
            None => prev,
        }
    }
}

/// A path is among the installed paths of `entries` exactly when some
/// member of `entries` is installed at it: as a set, the installed paths are
/// the members under `data/` with that prefix removed.
pub proof fn lemma_data_paths_members(entries: Seq<Seq<char>>, f: Seq<char>)
    ensures
        data_paths(entries).contains(f) <==> exists|k: int|
            0 <= k < entries.len() && data_path(#[trigger] entries[k]) == Some(f),
    decreases entries.len(),
{
    if entries.len() > 0 {
        let p = entries.drop_last();
        lemma_data_paths_members(p, f);
        let prev = data_paths(p);
        if data_paths(entries).contains(f) {
            let i = choose|i: int| 0 <= i < data_paths(entries).len() && data_paths(entries)[i] == f;
            match data_path(entries.last()) {
                Some(x) => {
                    if i == prev.len() {
                        assert(data_path(entries[entries.len() - 1]) == Some(f));
                    } else {
                        assert(prev[i] == f);
                        let k = choose|k: int| 0 <= k < p.len() && data_path(#[trigger] p[k]) == Some(f);
                        assert(entries[k] == p[k]);
                    }
                },
                None => {
                    let k = choose|k: int| 0 <= k < p.len() && data_path(#[trigger] p[k]) == Some(f);
                    assert(entries[k] == p[k]);
                },
            }
        }
        if exists|k: int| 0 <= k < entries.len() && data_path(#[trigger] entries[k]) == Some(f) {
            let k = choose|k: int| 0 <= k < entries.len() && data_path(#[trigger] entries[k]) == Some(f);
            if k == entries.len() - 1 {
                assert(data_paths(entries)[prev.len() as int] == f);
            } else {
                assert(p[k] == entries[k]);
                let i = choose|i: int| 0 <= i < prev.len() && prev[i] == f;
                match data_path(entries.last()) {
                    Some(x) => assert(data_paths(entries)[i] == f),
                    None => assert(data_paths(entries)[i] == f),
                }
            }
        }
    }
}

/// Returns the paths, relative to the system root, that the members
/// `entries` of an archive are installed at, in order. Fails with
/// `UnsafePath` when a member would land outside the system root.
pub fn installed_files(entries: &Vec<String>) -> (r: Result<Vec<String>, InstallError>)
    ensures
        match r {
            Ok(files) => (forall|k: int| 0 <= k < entries@.len() ==> is_safe_member(#[trigger] entries@[k]@))
                && files@.map_values(|f: String| f@) == data_paths(entries@.map_values(|e: String| e@)),
            Err(e) => e == InstallError::UnsafePath && exists|k: int|
                0 <= k < entries@.len() && !is_safe_member(#[trigger] entries@[k]@),
        },
{
    let ghost ev = entries@.map_values(|e: String| e@);
    let mut files: Vec<String> = Vec::new();
    let mut i: usize = 0;
    while i < entries.len()
        invariant
            i <= entries@.len(),
            ev == entries@.map_values(|e: String| e@),
            forall|k: int| 0 <= k < i ==> is_safe_member(#[trigger] entries@[k]@),
            files@.map_values(|f: String| f@) == data_paths(ev.subrange(0, i as int)),
        decreases entries@.len() - i,
    {
        let ghost before = files@;
        proof {
            assert(ev.subrange(0, i + 1).drop_last() =~= ev.subrange(0, i as int));
            assert(ev.subrange(0, i + 1).last() == entries@[i as int]@);
        }
        match data_member_path(entries[i].as_str()) {
            Err(e) => {
                return Err(e);
            },
            Ok(Some(p)) => {
                files.push(p);
                proof {
                    assert(files@.map_values(|f: String| f@) =~= before.map_values(|f: String| f@).push(
                        files@[files@.len() - 1]@,
                    ));
                }
            },
            Ok(None) => {},
        }
        i = i + 1;
    }
    proof {
        assert(ev.subrange(0, i as int) =~= ev);
    }
    Ok(files)
}

} // verus!
