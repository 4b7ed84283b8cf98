//! The TAS record: one tracked project pairing a game installation with a
//! collection of savestates, its snapshot counter, and the per-savestate
//! restore-attempt counters.

use crate::names::{make_restore_name, make_savestate_name, spec_restore_name, spec_savestate_name};
use crate::text::line_free;
use vstd::prelude::*;

verus! {

/// The abstract value of a TAS record.
pub ghost struct TasView {
    pub name: Seq<char>,
    pub minecraft_folder: Seq<char>,
    pub path: Seq<char>,
    pub num_savestates: nat,
    pub attempts: Seq<(Seq<char>, nat)>,
}

/// The abstract contents of the attempt table.
pub open spec fn pairs_view(s: Seq<(String, usize)>) -> Seq<(Seq<char>, nat)> {
    s.map_values(|p: (String, usize)| (p.0@, p.1 as nat))
}

/// No savestate name appears twice in the attempt table.
pub open spec fn unique_keys(s: Seq<(Seq<char>, nat)>) -> bool {
    forall|i: int, j: int| 0 <= i < j < s.len() ==> (#[trigger] s[i]).0 != (#[trigger] s[j]).0
}

pub open spec fn keys_line_free(s: Seq<(Seq<char>, nat)>) -> bool {
    forall|i: int| 0 <= i < s.len() ==> line_free((#[trigger] s[i]).0)
}

/// The attempt recorded for a savestate: the value of its first entry, if
/// it has one.
pub open spec fn spec_attempt_of(s: Seq<(Seq<char>, nat)>, k: Seq<char>) -> Option<nat>
    decreases s.len(),
{
    if s.len() == 0 {
        None
    } else if s[0].0 == k {
        Some(s[0].1)
    } else {
        spec_attempt_of(s.drop_first(), k)
    }
}

/// The attempt number the next restore of savestate `k` uses: 0 the first
/// time, one more than the recorded value after that.
pub open spec fn spec_next_attempt(s: Seq<(Seq<char>, nat)>, k: Seq<char>) -> nat {
    match spec_attempt_of(s, k) {
        None => 0,
        Some(a) => a + 1,
    }
}

/// The attempt table after a restore of savestate `k` is recorded: a first
/// restore appends an entry at 0, a later one bumps the existing entry.
pub open spec fn spec_record_attempt(s: Seq<(Seq<char>, nat)>, k: Seq<char>) -> Seq<
    (Seq<char>, nat),
>
    decreases s.len(),
{
    if s.len() == 0 {
        seq![(k, 0nat)]
    } else if s[0].0 == k {
        seq![(k, (s[0].1 + 1) as nat)] + s.drop_first()
    } else {
        seq![s[0]] + spec_record_attempt(s.drop_first(), k)
    }
}

impl TasView {
    /// Well-formedness of a TAS record: every text field fits on one line
    /// of the metadata file, and no savestate is tracked twice.
    pub open spec fn wf(self) -> bool {
        &&& line_free(self.name)
        &&& line_free(self.minecraft_folder)
        &&& line_free(self.path)
        &&& unique_keys(self.attempts)
        &&& keys_line_free(self.attempts)
    }
}

/// What a restore does to the attempt table: the restored savestate's
/// entry now holds its next attempt number, every other entry is
/// untouched, and no duplicate entry appears.
pub proof fn lemma_record_attempt(s: Seq<(Seq<char>, nat)>, k: Seq<char>)
    requires
        unique_keys(s),
    ensures
        spec_attempt_of(spec_record_attempt(s, k), k) == Some(spec_next_attempt(s, k)),
        forall|k2: Seq<char>|
            k2 != k ==> spec_attempt_of(spec_record_attempt(s, k), k2) == spec_attempt_of(s, k2),
        unique_keys(spec_record_attempt(s, k)),
        spec_attempt_of(s, k) is Some ==> spec_record_attempt(s, k).len() == s.len(),
        spec_attempt_of(s, k) is None ==> spec_record_attempt(s, k).len() == s.len() + 1,
        keys_line_free(s) && line_free(k) ==> keys_line_free(spec_record_attempt(s, k)),
    decreases s.len(),
{
    let r = spec_record_attempt(s, k);
    if s.len() == 0 {
        assert(r == seq![(k, 0nat)]);
        assert(r[0].0 == k);
        assert forall|k2: Seq<char>| k2 != k implies spec_attempt_of(r, k2) == spec_attempt_of(
            s,
            k2,
        ) by {
            assert(r.drop_first() =~= Seq::<(Seq<char>, nat)>::empty());
            assert(spec_attempt_of(r, k2) == spec_attempt_of(r.drop_first(), k2));
        }
    } else if s[0].0 == k {
        assert(r =~= seq![(k, (s[0].1 + 1) as nat)] + s.drop_first());
        assert(r[0].0 == k);
        assert(r.drop_first() =~= s.drop_first());
        assert forall|k2: Seq<char>| k2 != k implies spec_attempt_of(r, k2) == spec_attempt_of(
            s,
            k2,
        ) by {
            assert(spec_attempt_of(r, k2) == spec_attempt_of(r.drop_first(), k2));
            assert(spec_attempt_of(s, k2) == spec_attempt_of(s.drop_first(), k2));
        }
        assert forall|i: int, j: int| 0 <= i < j < r.len() implies r[i].0 != r[j].0 by {
            if i == 0 {
                assert(r[j] == s[j]);
                assert(s[0].0 != s[j].0);
            } else {
                assert(r[i] == s[i] && r[j] == s[j]);
            }
        }
    } else {
        assert(unique_keys(s.drop_first())) by {
            assert(forall|i: int, j: int|
                0 <= i < j < s.drop_first().len() ==> (#[trigger] s.drop_first()[i],
                #[trigger] s.drop_first()[j]) == (s[i + 1], s[j + 1]));
        }
        lemma_record_attempt(s.drop_first(), k);
        let rr = spec_record_attempt(s.drop_first(), k);
        assert(r =~= seq![s[0]] + rr);
        assert(r[0] == s[0]);
        assert(r.drop_first() =~= rr);
        assert(spec_attempt_of(r, k) == spec_attempt_of(rr, k));
        assert(spec_attempt_of(s, k) == spec_attempt_of(s.drop_first(), k));
        assert forall|k2: Seq<char>| k2 != k implies spec_attempt_of(r, k2) == spec_attempt_of(
            s,
            k2,
        ) by {
            if k2 == s[0].0 {
            } else {
                assert(spec_attempt_of(r, k2) == spec_attempt_of(rr, k2));
                assert(spec_attempt_of(s, k2) == spec_attempt_of(s.drop_first(), k2));
            }
        }
        assert forall|i: int, j: int| 0 <= i < j < r.len() implies r[i].0 != r[j].0 by {
            if i == 0 {
                assert(r[j] == rr[j - 1]);
                lemma_record_keys(s.drop_first(), k, j - 1);
                if rr[j - 1].0 != k {
                    lemma_attempt_of_some(s.drop_first(), rr[j - 1].0);
                    let w = choose|w: int|
                        0 <= w < s.drop_first().len() && s.drop_first()[w].0 == rr[j - 1].0;
                    assert(s.drop_first()[w] == s[w + 1]);
                    assert(s[0].0 != s[w + 1].0);
                }
            } else {
                assert(r[i] == rr[i - 1] && r[j] == rr[j - 1]);
            }
        }
        assert(keys_line_free(s) && line_free(k) ==> keys_line_free(r)) by {
            if keys_line_free(s) && line_free(k) {
                assert(keys_line_free(s.drop_first())) by {
                    assert(forall|i: int|
                        0 <= i < s.drop_first().len() ==> #[trigger] s.drop_first()[i] == s[i + 1]);
                }
                assert forall|i: int| 0 <= i < r.len() implies line_free((#[trigger] r[i]).0) by {
                    if i > 0 {
                        assert(r[i] == rr[i - 1]);
                    }
                }
            }
        }
    }
}

/// Every key of the recorded table is either `k` or a key of the old one.
proof fn lemma_record_keys(s: Seq<(Seq<char>, nat)>, k: Seq<char>, i: int)
    requires
        0 <= i < spec_record_attempt(s, k).len(),
    ensures
        spec_record_attempt(s, k)[i].0 == k || spec_attempt_of(
            s,
            spec_record_attempt(s, k)[i].0,
        ) is Some,
    decreases s.len(),
{
    let r = spec_record_attempt(s, k);
    if s.len() == 0 {
    } else if s[0].0 == k {
        if i > 0 {
            assert(r[i] == s[i]);
            lemma_attempt_of_key_present(s, i);
        }
    } else {
        if i == 0 {
            assert(r[0] == s[0]);
            assert(spec_attempt_of(s, s[0].0) == Some(s[0].1));
        } else {
            let rr = spec_record_attempt(s.drop_first(), k);
            assert(r =~= seq![s[0]] + rr);
            assert(r[i] == rr[i - 1]);
            lemma_record_keys(s.drop_first(), k, i - 1);
            if rr[i - 1].0 != k {
                assert(spec_attempt_of(s, rr[i - 1].0) == spec_attempt_of(
                    s.drop_first(),
                    rr[i - 1].0,
                ) || rr[i - 1].0 == s[0].0);
            }
        }
    }
}

/// A key the lookup finds stands somewhere in the table.
proof fn lemma_attempt_of_some(s: Seq<(Seq<char>, nat)>, k: Seq<char>)
    requires
        spec_attempt_of(s, k) is Some,
    ensures
        exists|i: int| 0 <= i < s.len() && (#[trigger] s[i]).0 == k,
    decreases s.len(),
{
    if s[0].0 == k {
        assert(0 <= 0 < s.len() && s[0].0 == k);
    } else {
        lemma_attempt_of_some(s.drop_first(), k);
        let w = choose|w: int| 0 <= w < s.drop_first().len() && (#[trigger] s.drop_first()[w]).0 == k;
        assert(s[w + 1] == s.drop_first()[w]);
    }
}

/// A key that stands in the table is found by the lookup.
proof fn lemma_attempt_of_key_present(s: Seq<(Seq<char>, nat)>, i: int)
    requires
        0 <= i < s.len(),
    ensures
        spec_attempt_of(s, s[i].0) is Some,
    decreases s.len(),
{
    if i > 0 && s[0].0 != s[i].0 {
        assert(s.drop_first()[i - 1] == s[i]);
        lemma_attempt_of_key_present(s.drop_first(), i - 1);
    }
}

/// A key the lookup does not find stands nowhere in the table.
pub proof fn lemma_attempt_of_key_absent(s: Seq<(Seq<char>, nat)>, k: Seq<char>)
    requires
        spec_attempt_of(s, k) is None,
    ensures
        forall|i: int| 0 <= i < s.len() ==> (#[trigger] s[i]).0 != k,
    decreases s.len(),
{
    if s.len() > 0 {
        lemma_attempt_of_key_absent(s.drop_first(), k);
        assert forall|i: int| 0 <= i < s.len() implies (#[trigger] s[i]).0 != k by {
            if i > 0 {
                assert(s.drop_first()[i - 1] == s[i]);
            }
        }
    }
}

/// Scanning past a prefix that does not hold `k` changes neither the
/// lookup nor the recording.
proof fn lemma_scan(s: Seq<(Seq<char>, nat)>, k: Seq<char>, i: int)
    requires
        0 <= i <= s.len(),
        forall|j: int| 0 <= j < i ==> (#[trigger] s[j]).0 != k,
    ensures
        spec_attempt_of(s, k) == spec_attempt_of(s.skip(i), k),
        spec_record_attempt(s, k) =~= s.take(i) + spec_record_attempt(s.skip(i), k),
    decreases i,
{
    if i == 0 {
        assert(s.skip(0) =~= s);
        assert(s.take(0) =~= Seq::<(Seq<char>, nat)>::empty());
        assert(s.take(0) + spec_record_attempt(s.skip(0), k) =~= spec_record_attempt(s, k));
    } else {
        lemma_scan(s, k, i - 1);
        let t = s.skip(i - 1);
        assert(t[0] == s[i - 1]);
        assert(t[0].0 != k);
        assert(t.drop_first() =~= s.skip(i));
        assert(spec_attempt_of(t, k) == spec_attempt_of(s.skip(i), k));
        assert(spec_record_attempt(t, k) =~= seq![t[0]] + spec_record_attempt(s.skip(i), k));
        assert(s.take(i - 1) + spec_record_attempt(t, k) =~= s.take(i) + spec_record_attempt(
            s.skip(i),
            k,
        ));
    }
}

/// The TAS record: one tracked project.
pub struct Tas {
    pub name: String,
    pub minecraft_folder: String,
    pub path: String,
    pub num_savestates: usize,
    pub attempts: Vec<(String, usize)>,
}

impl View for Tas {
    type V = TasView;

    open spec fn view(&self) -> TasView {
        TasView {
            name: self.name@,
            minecraft_folder: self.minecraft_folder@,
            path: self.path@,
            num_savestates: self.num_savestates as nat,
            attempts: pairs_view(self.attempts@),
        }
    }
}

/// Looks a savestate up in the attempt table; reports its position and
/// recorded value, or that it has none.
fn find_attempt(v: &Vec<(String, usize)>, k: &String) -> (r: Option<usize>)
    ensures
        match r {
            Some(i) => i < v.len() && pairs_view(v@)[i as int].0 == k@ && spec_attempt_of(
                pairs_view(v@),
                k@,
            ) == Some(pairs_view(v@)[i as int].1) && (forall|j: int|
                0 <= j < i ==> (#[trigger] pairs_view(v@)[j]).0 != k@),
            None => spec_attempt_of(pairs_view(v@), k@) is None,
        },
{
    let ghost s = pairs_view(v@);
    let mut i: usize = 0;
    while i < v.len()
        invariant
            0 <= i <= v.len(),
            s == pairs_view(v@),
            s.len() == v.len(),
            forall|j: int| 0 <= j < i ==> (#[trigger] s[j]).0 != k@,
        decreases v.len() - i,
    {
        if v[i].0 == *k {
            proof {
                lemma_scan(s, k@, i as int);
                assert(s.skip(i as int)[0] == s[i as int]);
            }
            return Some(i);
        }
        proof {
            assert(s[i as int].0 == v@[i as int].0@);
        }
        i = i + 1;
    }
    proof {
        lemma_scan(s, k@, s.len() as int);
        assert(s.skip(s.len() as int) =~= Seq::<(Seq<char>, nat)>::empty());
    }
    None
}

impl Tas {
    /// A freshly created TAS record: no savestates yet, no restore
    /// attempts recorded.
    pub fn new(name: String, minecraft_folder: String, path: String) -> (t: Tas)
        ensures
            t@.name == name@,
            t@.minecraft_folder == minecraft_folder@,
            t@.path == path@,
            t@.num_savestates == 0,
            t@.attempts == Seq::<(Seq<char>, nat)>::empty(),
            line_free(name@) && line_free(minecraft_folder@) && line_free(path@) ==> t@.wf(),
    {
        let t = Tas { name, minecraft_folder, path, num_savestates: 0, attempts: Vec::new() };
        proof {
            assert(pairs_view(t.attempts@) =~= Seq::<(Seq<char>, nat)>::empty());
        }
        t
    }

    /// Allocates the next savestate: hands back the directory name
    /// `{name}-{counter}-{nickname}` and advances the counter, leaving
    /// everything else as it was.
    pub fn create_savestate(&mut self, nickname: &str) -> (savestate_name: String)
        requires
            old(self).num_savestates < usize::MAX,
        ensures
            savestate_name@ == spec_savestate_name(
                old(self)@.name,
                old(self)@.num_savestates,
                nickname@,
            ),
            final(self)@.name == old(self)@.name,
            final(self)@.minecraft_folder == old(self)@.minecraft_folder,
            final(self)@.path == old(self)@.path,
            final(self)@.num_savestates == old(self)@.num_savestates + 1,
            final(self)@.attempts == old(self)@.attempts,
            old(self)@.wf() ==> final(self)@.wf(),
    {
        let savestate_name = make_savestate_name(
            self.name.as_str(),
            self.num_savestates,
            nickname,
        );
        self.num_savestates = self.num_savestates + 1;
        savestate_name
    }

    /// Records a restore of the given savestate and hands back the name of
    /// the directory the restored world goes to: the savestate's name with
    /// the attempt number appended, 0 on the first restore and one more
    /// than the recorded value on every later one.
    pub fn load_savestate(&mut self, savestate_name: &String) -> (new_name: String)
        requires
            old(self)@.wf(),
            line_free(savestate_name@),
            spec_next_attempt(old(self)@.attempts, savestate_name@) < usize::MAX,
        ensures
            final(self)@.attempts == spec_record_attempt(old(self)@.attempts, savestate_name@),
            new_name@ == spec_restore_name(
                savestate_name@,
                spec_next_attempt(old(self)@.attempts, savestate_name@),
            ),
            spec_attempt_of(final(self)@.attempts, savestate_name@) == Some(
                spec_next_attempt(old(self)@.attempts, savestate_name@),
            ),
            final(self)@.name == old(self)@.name,
            final(self)@.minecraft_folder == old(self)@.minecraft_folder,
            final(self)@.path == old(self)@.path,
            final(self)@.num_savestates == old(self)@.num_savestates,
            final(self)@.wf(),
    {
        let ghost s = pairs_view(self.attempts@);
        let ghost k = savestate_name@;
        proof {
            lemma_record_attempt(s, k);
        }
        let attempt: usize;
        match find_attempt(&self.attempts, savestate_name) {
            Some(i) => {
                let prev = self.attempts[i].1;
                attempt = prev + 1;
                self.attempts[i] = (savestate_name.clone(), attempt);
                proof {
                    lemma_scan(s, k, i as int);
                    assert(s.skip(i as int)[0] == s[i as int]);
                    assert(s.skip(i as int).drop_first() =~= s.skip(i as int + 1));
                    assert(spec_record_attempt(s.skip(i as int), k) =~= seq![
                        (k, (prev + 1) as nat),
                    ] + s.skip(i as int + 1));
                    assert(spec_record_attempt(s, k) =~= s.update(
                        i as int,
                        (k, (prev + 1) as nat),
                    ));
                    assert(pairs_view(self.attempts@) =~= s.update(
                        i as int,
                        (k, (prev + 1) as nat),
                    ));
                }
            },
            None => {
                attempt = 0;
                self.attempts.push((savestate_name.clone(), 0));
                proof {
                    lemma_attempt_of_key_absent(s, k);
                    lemma_scan(s, k, s.len() as int);
                    assert(s.skip(s.len() as int) =~= Seq::<(Seq<char>, nat)>::empty());
                    assert(spec_record_attempt(s, k) =~= s.push((k, 0nat)));
                    assert(pairs_view(self.attempts@) =~= s.push((k, 0nat)));
                }
            },
        }
        make_restore_name(savestate_name.as_str(), attempt)
    }
}

/// Restoring the same savestate twice in succession uses attempt numbers
/// `a` and `a + 1` and produces two distinct restored-world names, so the
/// second restore never lands in the first one's directory.
pub proof fn lemma_restore_twice(attempts: Seq<(Seq<char>, nat)>, k: Seq<char>)
    requires
        unique_keys(attempts),
    ensures
        spec_next_attempt(spec_record_attempt(attempts, k), k) == spec_next_attempt(attempts, k)
            + 1,
        spec_restore_name(k, spec_next_attempt(attempts, k)) != spec_restore_name(
            k,
            spec_next_attempt(spec_record_attempt(attempts, k), k),
        ),
{
    lemma_record_attempt(attempts, k);
    crate::names::lemma_restore_names_distinct(
        k,
        spec_next_attempt(attempts, k),
        spec_next_attempt(attempts, k) + 1,
    );
}

} // verus!
