//! World-directory validation, enumeration sorted by recency, and the
//! safety-gated deletion check for save directories.

use crate::names::field_count;
use vstd::multiset::Multiset;
use vstd::prelude::*;

verus! {

broadcast use vstd::seq_lib::group_to_multiset_ensures;

/// What the library sees of one directory on disk: its path, its bare
/// name, and its last-modified time in whole seconds.
pub struct FsEntry {
    pub path: String,
    pub name: String,
    pub modified: u64,
}

/// A candidate world directory together with the names of the files that
/// stand directly inside it (depth exactly 1).
pub struct WorldCandidate {
    pub entry: FsEntry,
    pub file_names: Vec<String>,
}

pub open spec fn contains_name(names: Seq<Seq<char>>, target: Seq<char>) -> bool {
    exists|i: int| 0 <= i < names.len() && names[i] == target
}

/// A directory is a valid world save exactly when its direct files
/// include both marker files: the world index `level.dat` and the session
/// lock `session.lock`.
pub open spec fn spec_is_save(names: Seq<Seq<char>>) -> bool {
    contains_name(names, "level.dat"@) && contains_name(names, "session.lock"@)
}

pub open spec fn is_valid_candidate(c: WorldCandidate) -> bool {
    spec_is_save(c.file_names.deep_view())
}

/// The structural signature check gating every destructive operation:
/// true iff both marker files stand directly in the directory, whatever
/// else it holds.
pub fn is_minecraft_save_folder(file_names: &Vec<String>) -> (r: bool)
    ensures
        r == spec_is_save(file_names.deep_view()),
{
    let level = "level.dat".to_owned();
    let lock = "session.lock".to_owned();
    let mut has_level = false;
    let mut has_lock = false;
    let mut i: usize = 0;
    while i < file_names.len()
        invariant
            0 <= i <= file_names.len(),
            file_names.deep_view().len() == file_names.len(),
            level@ == "level.dat"@,
            lock@ == "session.lock"@,
            has_level == contains_name(
                file_names.deep_view().take(i as int),
                "level.dat"@,
            ),
            has_lock == contains_name(
                file_names.deep_view().take(i as int),
                "session.lock"@,
            ),
        decreases file_names.len() - i,
    {
        let ghost dv = file_names.deep_view();
        if file_names[i] == level {
            has_level = true;
        }
        if file_names[i] == lock {
            has_lock = true;
        }
        proof {
            assert(dv[i as int] == file_names@[i as int]@);
            let pre = dv.take(i as int);
            let ext = dv.take(i as int + 1);
            assert(ext.drop_last() =~= pre);
            assert(ext.last() == dv[i as int]);
            assert forall|t: Seq<char>|
                contains_name(ext, t) == (contains_name(pre, t) || dv[i as int] == t) by {
                if contains_name(ext, t) {
                    let w = choose|w: int| 0 <= w < ext.len() && #[trigger] ext[w] == t;
                    if w < i {
                        assert(pre[w] == t);
                    }
                } else {
                    if contains_name(pre, t) {
                        let w = choose|w: int| 0 <= w < pre.len() && #[trigger] pre[w] == t;
                        assert(ext[w] == t);
                    }
                    if dv[i as int] == t {
                        assert(ext[i as int] == t);
                    }
                }
            }
        }
        i = i + 1;
    }
    proof {
        assert(file_names.deep_view().take(file_names.len() as int) =~= file_names.deep_view());
    }
    has_level && has_lock
}

/// The outcome of the safety gates that protect deletion.
#[derive(Clone, Copy, Debug, PartialEq, Eq)]
pub enum DeleteVerdict {
    /// All three gates passed: the directory may be removed.
    Approved,
    /// The directory is not structurally a game save.
    NotASave,
    /// The directory holds more than the automatic-deletion limit and must
    /// be removed by hand.
    TooLarge,
    /// The directory's name does not split into exactly three
    /// hyphen-separated fields.
    BadNameFormat,
}

/// The byte-size limit above which deletion is refused for safety.
pub const MAX_DELETE_SIZE: u64 = 5_000_000_000;

/// The three safety gates checked before a save directory (a savestate or
/// a restored live world) is deleted: it must look like a game save, be no
/// larger than the limit, and carry a three-field name. The first failing
/// gate, in that order, names the verdict; only `Approved` permits the
/// removal.
pub fn delete_check(file_names: &Vec<String>, size: u64, dir_name: &str) -> (v: DeleteVerdict)
    ensures
        (v is NotASave) <==> !spec_is_save(file_names.deep_view()),
        (v is TooLarge) <==> spec_is_save(file_names.deep_view()) && size > MAX_DELETE_SIZE,
        (v is BadNameFormat) <==> spec_is_save(file_names.deep_view()) && size <= MAX_DELETE_SIZE
            && field_count(dir_name@) != 3,
        (v is Approved) <==> spec_is_save(file_names.deep_view()) && size <= MAX_DELETE_SIZE
            && field_count(dir_name@) == 3,
{
    if !is_minecraft_save_folder(file_names) {
        DeleteVerdict::NotASave
    } else if size > MAX_DELETE_SIZE {
        DeleteVerdict::TooLarge
    } else if crate::names::count_hyphens(dir_name) != 2 {
        DeleteVerdict::BadNameFormat
    } else {
        DeleteVerdict::Approved
    }
}

/// Newest first: each entry's modified time is no older than the next.
pub open spec fn sorted_desc(s: Seq<FsEntry>) -> bool {
    forall|i: int, j: int| 0 <= i < j < s.len() ==> (#[trigger] s[i]).modified >= (
    #[trigger] s[j]).modified
}

/// Sorts directory entries by last-modified time, newest first. The
/// result holds exactly the given entries.
pub fn sort_by_modified_desc(entries: Vec<FsEntry>) -> (r: Vec<FsEntry>)
    ensures
        sorted_desc(r@),
        r@.to_multiset() == entries@.to_multiset(),
        r@.len() == entries@.len(),
{
    let mut work = entries;
    let ghost orig = work@;
    let mut out: Vec<FsEntry> = Vec::new();
    proof {
        assert(out@.to_multiset().add(work@.to_multiset()) =~= orig.to_multiset());
    }
    while work.len() > 0
        invariant
            sorted_desc(out@),
            out@.to_multiset().add(work@.to_multiset()) == orig.to_multiset(),
            out@.len() + work@.len() == orig.len(),
            forall|i: int, j: int|
                0 <= i < out@.len() && 0 <= j < work@.len() ==> (#[trigger] out@[i]).modified >= (
                #[trigger] work@[j]).modified,
        decreases work.len(),
    {
        let mut m: usize = 0;
        let mut i: usize = 1;
        while i < work.len()
            invariant
                0 < work.len(),
                0 <= m < i <= work.len(),
                forall|j: int| 0 <= j < i ==> work@[m as int].modified >= (#[trigger] work@[j]).modified,
            decreases work.len() - i,
        {
            if work[i].modified > work[m].modified {
                m = i;
            }
            i = i + 1;
        }
        let ghost old_work = work@;
        let ghost old_out = out@;
        let e = work.remove(m);
        out.push(e);
        proof {
            assert(old_work.to_multiset().contains(e)) by {
                assert(old_work[m as int] == e);
                assert(old_work.contains(e));
            }
            assert(work@.to_multiset() =~= old_work.to_multiset().remove(e));
            assert(out@.to_multiset() =~= old_out.to_multiset().insert(e));
            assert(out@.to_multiset().add(work@.to_multiset()) =~= old_out.to_multiset().add(
                old_work.to_multiset(),
            ));
            assert forall|i2: int, j2: int| 0 <= i2 < j2 < out@.len() implies (
            #[trigger] out@[i2]).modified >= (#[trigger] out@[j2]).modified by {
                if j2 == out@.len() - 1 {
                    assert(out@[i2] == old_out[i2]);
                    assert(out@[j2] == e);
                    assert(old_work[m as int] == e);
                }
            }
            assert forall|i2: int, j2: int|
                0 <= i2 < out@.len() && 0 <= j2 < work@.len() implies (
            #[trigger] out@[i2]).modified >= (#[trigger] work@[j2]).modified by {
                if j2 < m {
                    assert(work@[j2] == old_work[j2]);
                } else {
                    assert(work@[j2] == old_work[j2 + 1]);
                }
                if i2 < out@.len() - 1 {
                    assert(out@[i2] == old_out[i2]);
                } else {
                    assert(out@[i2] == e);
                }
            }
        }
    }
    proof {
        assert(work@.to_multiset() =~= Multiset::<FsEntry>::empty());
        assert(out@.to_multiset().add(Multiset::<FsEntry>::empty()) =~= out@.to_multiset());
    }
    out
}

/// The world directories among the candidates found under a `saves`
/// folder: exactly those passing the structural signature check, sorted
/// newest first.
pub fn get_all_worlds(candidates: Vec<WorldCandidate>) -> (r: Vec<FsEntry>)
    ensures
        sorted_desc(r@),
        r@.to_multiset() == candidates@.filter(|c: WorldCandidate| is_valid_candidate(c))
            .map_values(|c: WorldCandidate| c.entry).to_multiset(),
{
    let ghost orig = candidates@;
    let ghost pred = |c: WorldCandidate| is_valid_candidate(c);
    let ghost f = |c: WorldCandidate| c.entry;
    let mut work = candidates;
    let total = work.len();
    let mut kept: Vec<FsEntry> = Vec::new();
    let mut k: usize = 0;
    proof {
        reveal(Seq::filter);
        assert(orig.take(0) =~= Seq::<WorldCandidate>::empty());
        assert(orig.take(0).filter(pred).map_values(f) =~= Seq::<FsEntry>::empty());
        assert(kept@ =~= orig.take(0).filter(pred).map_values(f));
    }
    while work.len() > 0
        invariant
            k + work@.len() == orig.len(),
            orig.len() == total,
            k <= total,
            work@ =~= orig.skip(k as int),
            kept@ == orig.take(k as int).filter(pred).map_values(f),
            pred == (|c: WorldCandidate| is_valid_candidate(c)),
            f == (|c: WorldCandidate| c.entry),
        decreases work.len(),
    {
        let c = work.remove(0);
        proof {
            assert(c == orig[k as int]);
            assert(work@ =~= orig.skip(k as int + 1));
            assert(orig.take(k as int + 1).drop_last() =~= orig.take(k as int));
            assert(orig.take(k as int + 1).last() == orig[k as int]);
        }
        let valid = is_minecraft_save_folder(&c.file_names);
        let ghost old_kept = kept@;
        if valid {
            kept.push(c.entry);
        }
        proof {
            reveal(Seq::filter);
            let ext = orig.take(k as int + 1);
            let t1 = ext.filter(pred);
            let t0 = orig.take(k as int).filter(pred);
            assert(ext.drop_last() =~= orig.take(k as int));
            assert(ext.last() == orig[k as int]);
            assert(ext.len() > 0);
            if pred(orig[k as int]) {
                assert(t1 =~= t0.push(orig[k as int]));
                assert(t1.map_values(f) =~= t0.map_values(f).push(f(orig[k as int])));
                assert(kept@ =~= old_kept.push(c.entry));
            } else {
                assert(t1 =~= t0);
            }
        }
        k = k + 1;
    }
    proof {
        assert(orig.take(orig.len() as int) =~= orig);
    }
    sort_by_modified_desc(kept)
}

/// What the display text of a timestamp is. Relies on chrono (see
/// `format_timestamp`); the text is a function of the seconds value alone.
pub uninterp spec fn timestamp_text(secs: u64) -> Seq<char>;

/// Relies on chrono's `DateTime::<Utc>::from_timestamp` and its strftime
/// formatting with `%H:%M:%S %d/%m/%Y`: the text depends on the given
/// seconds alone (UTC, no locale, no time zone lookup).
#[verifier::external_body]
fn format_timestamp(secs: u64) -> (r: String)
    ensures
        r@ == timestamp_text(secs),
{
    match chrono::DateTime::<chrono::Utc>::from_timestamp(secs as i64, 0) {
        Some(dt) => dt.format("%H:%M:%S %d/%m/%Y").to_string(),
        None => String::new(),
    }
}

pub open spec fn spec_spaces(n: nat) -> Seq<char> {
    Seq::new(n, |i: int| ' ')
}

fn spaces(n: usize) -> (r: String)
    ensures
        r@ == spec_spaces(n as nat),
{
    let mut r = String::new();
    let mut i: usize = 0;
    while i < n
        invariant
            0 <= i <= n,
            r@ =~= spec_spaces(i as nat),
        decreases n - i,
    {
        crate::digits::push_char(&mut r, ' ');
        proof {
            assert(r@ =~= spec_spaces(i as nat + 1));
        }
        i = i + 1;
    }
    r
}

/// The display line of one savestate entry: its name, padded with spaces
/// to column 35, then its last-modified timestamp.
pub open spec fn spec_display_line(name: Seq<char>, modified: u64) -> Seq<char> {
    name + spec_spaces((35 - name.len()) as nat) + timestamp_text(modified)
}

/// One display line per savestate, in the given order.
pub fn format_names(savestates: &Vec<FsEntry>) -> (r: Vec<String>)
    requires
        forall|i: int|
            0 <= i < savestates@.len() ==> (#[trigger] savestates@[i]).name@.len() <= 35,
    ensures
        r@.len() == savestates@.len(),
        forall|i: int|
            0 <= i < r@.len() ==> (#[trigger] r@[i])@ == spec_display_line(
                savestates@[i].name@,
                savestates@[i].modified,
            ),
{
    let mut r: Vec<String> = Vec::new();
    let mut i: usize = 0;
    while i < savestates.len()
        invariant
            0 <= i <= savestates.len(),
            forall|j: int|
                0 <= j < savestates@.len() ==> (#[trigger] savestates@[j]).name@.len() <= 35,
            r@.len() == i,
            forall|j: int|
                0 <= j < i ==> (#[trigger] r@[j])@ == spec_display_line(
                    savestates@[j].name@,
                    savestates@[j].modified,
                ),
        decreases savestates.len() - i,
    {
        let name = &savestates[i].name;
        let len = name.as_str().unicode_len();
        let mut line = name.clone();
        let pad = spaces(35 - len);
        line.append(pad.as_str());
        let stamp = format_timestamp(savestates[i].modified);
        line.append(stamp.as_str());
        proof {
            assert(line@ =~= spec_display_line(savestates@[i as int].name@, savestates@[i as int].modified));
        }
        r.push(line);
        i = i + 1;
    }
    r
}

/// The fixed name of a game installation folder, as the system-wide
/// discovery walk matches it.
pub fn is_minecraft_folder_name(name: &String) -> (r: bool)
    ensures
        r == (name@ == ".minecraft"@),
{
    let target = ".minecraft".to_owned();
    *name == target
}

} // verus!
