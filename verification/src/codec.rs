//! The persisted metadata format for a TAS record: a line-oriented text
//! file holding the name, the two directories, the savestate counter, and
//! the restore-attempt table. Writing and reading are exact inverses.

use crate::digits::{
    dec_digits, lemma_dec_digits_all_digits, lemma_dec_round_trip, parse_usize, spec_parse_dec,
    usize_to_string,
};
use crate::tas::{pairs_view, unique_keys, keys_line_free, Tas, TasView};
use crate::text::{
    all_lines_free, line_free, join_lines, spec_join_lines, spec_split_lines, split_lines,
    lemma_split_join,
};
use vstd::prelude::*;

verus! {

/// The attempt table, two lines per entry: the savestate name, then the
/// recorded attempt number.
pub open spec fn spec_pair_lines(s: Seq<(Seq<char>, nat)>) -> Seq<Seq<char>>
    decreases s.len(),
{
    if s.len() == 0 {
        Seq::empty()
    } else {
        seq![s[0].0, dec_digits(s[0].1)] + spec_pair_lines(s.drop_first())
    }
}

/// The lines of a TAS record: name, source directory, storage directory,
/// savestate counter, number of attempt entries, then the entries.
pub open spec fn spec_tas_lines(t: TasView) -> Seq<Seq<char>> {
    seq![
        t.name,
        t.minecraft_folder,
        t.path,
        dec_digits(t.num_savestates),
        dec_digits(t.attempts.len()),
    ] + spec_pair_lines(t.attempts)
}

/// The full text of a persisted TAS record.
pub open spec fn spec_encode_tas(t: TasView) -> Seq<char> {
    spec_join_lines(spec_tas_lines(t))
}

/// Parses the attempt table back from its lines; every name line is taken
/// as it stands, every number line must be a canonical counter.
pub open spec fn spec_parse_pairs(lines: Seq<Seq<char>>) -> Option<Seq<(Seq<char>, nat)>>
    decreases lines.len(),
{
    if lines.len() == 0 {
        Some(Seq::empty())
    } else if lines.len() == 1 {
        None
    } else {
        match spec_parse_dec(lines[1]) {
            None => None,
            Some(v) => match spec_parse_pairs(lines.skip(2)) {
                None => None,
                Some(rest) => Some(seq![(lines[0], v)] + rest),
            },
        }
    }
}

/// Parses a TAS record from its lines; rejects a malformed counter, a
/// line count that does not match the declared table size, and a table
/// naming the same savestate twice.
pub open spec fn spec_decode_lines(lines: Seq<Seq<char>>) -> Option<TasView> {
    if lines.len() < 5 {
        None
    } else {
        match spec_parse_dec(lines[3]) {
            None => None,
            Some(count) => match spec_parse_dec(lines[4]) {
                None => None,
                Some(n) => if lines.len() != 5 + 2 * n {
                    None
                } else {
                    match spec_parse_pairs(lines.skip(5)) {
                        None => None,
                        Some(pairs) => if !unique_keys(pairs) {
                            None
                        } else {
                            Some(
                                TasView {
                                    name: lines[0],
                                    minecraft_folder: lines[1],
                                    path: lines[2],
                                    num_savestates: count,
                                    attempts: pairs,
                                },
                            )
                        },
                    }
                },
            },
        }
    }
}

/// What a persisted text means: split into lines, then parsed.
pub open spec fn spec_decode_tas(s: Seq<char>) -> Option<TasView> {
    spec_decode_lines(spec_split_lines(s))
}

/// Every counter of the record fits in `usize`, as it does in every TAS
/// value the library builds.
pub open spec fn bounded(t: TasView) -> bool {
    &&& t.num_savestates <= usize::MAX as nat
    &&& t.attempts.len() <= usize::MAX as nat
    &&& forall|i: int|
        0 <= i < t.attempts.len() ==> (#[trigger] t.attempts[i]).1 <= usize::MAX as nat
}

proof fn lemma_digits_line_free(n: nat)
    ensures
        line_free(dec_digits(n)),
{
    lemma_dec_digits_all_digits(n);
    assert forall|i: int| 0 <= i < dec_digits(n).len() implies dec_digits(n)[i] != '\n' by {
        assert(crate::digits::is_digit(dec_digits(n)[i]));
        assert(crate::digits::digit_val('\n') == 10);
    }
}

proof fn lemma_pair_lines_push(s: Seq<(Seq<char>, nat)>, p: (Seq<char>, nat))
    ensures
        spec_pair_lines(s.push(p)) =~~= spec_pair_lines(s) + seq![p.0, dec_digits(p.1)],
    decreases s.len(),
{
    let u = s.push(p);
    if s.len() == 0 {
        assert(u[0] == p);
        assert(u.drop_first() =~= Seq::<(Seq<char>, nat)>::empty());
        assert(spec_pair_lines(u.drop_first()) =~= Seq::<Seq<char>>::empty());
        assert(spec_pair_lines(u) =~= seq![p.0, dec_digits(p.1)] + spec_pair_lines(u.drop_first()));
        assert(spec_pair_lines(s) =~= Seq::<Seq<char>>::empty());
        assert(spec_pair_lines(u) =~~= spec_pair_lines(s) + seq![p.0, dec_digits(p.1)]);
    } else {
        assert(u[0] == s[0]);
        assert(u.drop_first() =~= s.drop_first().push(p));
        lemma_pair_lines_push(s.drop_first(), p);
        assert(spec_pair_lines(u) =~= seq![s[0].0, dec_digits(s[0].1)] + spec_pair_lines(
            u.drop_first(),
        ));
        assert(spec_pair_lines(u.drop_first()) =~~= spec_pair_lines(s.drop_first()) + seq![
            p.0,
            dec_digits(p.1),
        ]);
        assert(spec_pair_lines(u) =~~= spec_pair_lines(s) + seq![p.0, dec_digits(p.1)]);
    }
}

proof fn lemma_pair_lines_len(s: Seq<(Seq<char>, nat)>)
    ensures
        spec_pair_lines(s).len() == 2 * s.len(),
    decreases s.len(),
{
    if s.len() > 0 {
        lemma_pair_lines_len(s.drop_first());
    }
}

proof fn lemma_pair_lines_free(s: Seq<(Seq<char>, nat)>)
    requires
        keys_line_free(s),
    ensures
        all_lines_free(spec_pair_lines(s)),
    decreases s.len(),
{
    if s.len() > 0 {
        assert(keys_line_free(s.drop_first())) by {
            assert(forall|i: int|
                0 <= i < s.drop_first().len() ==> #[trigger] s.drop_first()[i] == s[i + 1]);
        }
        lemma_pair_lines_free(s.drop_first());
        lemma_digits_line_free(s[0].1);
        let r = spec_pair_lines(s);
        let rest = spec_pair_lines(s.drop_first());
        assert(line_free(s[0].0));
        assert forall|i: int| 0 <= i < r.len() implies line_free(#[trigger] r[i]) by {
            if i >= 2 {
                assert(r[i] == rest[i - 2]);
            }
        }
    }
}

proof fn lemma_tas_lines_free(t: TasView)
    requires
        t.wf(),
    ensures
        all_lines_free(spec_tas_lines(t)),
{
    lemma_digits_line_free(t.num_savestates);
    lemma_digits_line_free(t.attempts.len());
    lemma_pair_lines_free(t.attempts);
    let r = spec_tas_lines(t);
    let rest = spec_pair_lines(t.attempts);
    assert forall|i: int| 0 <= i < r.len() implies line_free(#[trigger] r[i]) by {
        if i >= 5 {
            assert(r[i] == rest[i - 5]);
        }
    }
}

proof fn lemma_parse_pairs_round(s: Seq<(Seq<char>, nat)>)
    requires
        forall|i: int| 0 <= i < s.len() ==> (#[trigger] s[i]).1 <= usize::MAX as nat,
    ensures
        spec_parse_pairs(spec_pair_lines(s)) == Some(s),
    decreases s.len(),
{
    let lines = spec_pair_lines(s);
    lemma_pair_lines_len(s);
    if s.len() == 0 {
        assert(lines.len() == 0);
    } else {
        assert(forall|i: int|
            0 <= i < s.drop_first().len() ==> (#[trigger] s.drop_first()[i]) == s[i + 1]);
        lemma_parse_pairs_round(s.drop_first());
        lemma_dec_round_trip(s[0].1);
        let rest = spec_pair_lines(s.drop_first());
        assert(lines =~= seq![s[0].0, dec_digits(s[0].1)] + rest);
        assert(lines[0] == s[0].0);
        assert(lines[1] == dec_digits(s[0].1));
        assert(lines.skip(2) =~= rest);
        assert(spec_parse_pairs(lines.skip(2)) == Some(s.drop_first()));
        assert(seq![(s[0].0, s[0].1)] + s.drop_first() =~= s);
        assert((s[0].0, s[0].1) == s[0]);
    }
}

/// The round trip: a well-formed, bounded TAS record written to text and
/// read back comes back exactly as it was, in every field, including an
/// empty attempt table.
pub proof fn lemma_tas_round_trip(t: TasView)
    requires
        t.wf(),
        bounded(t),
    ensures
        spec_decode_tas(spec_encode_tas(t)) == Some(t),
{
    let lines = spec_tas_lines(t);
    lemma_tas_lines_free(t);
    lemma_split_join(lines);
    assert(spec_split_lines(spec_encode_tas(t)) == lines);
    lemma_pair_lines_len(t.attempts);
    assert(lines.len() == 5 + 2 * t.attempts.len());
    lemma_dec_round_trip(t.num_savestates);
    lemma_dec_round_trip(t.attempts.len());
    assert(lines[3] == dec_digits(t.num_savestates));
    assert(lines[4] == dec_digits(t.attempts.len()));
    assert(lines.skip(5) =~= spec_pair_lines(t.attempts));
    lemma_parse_pairs_round(t.attempts);
    assert(spec_decode_lines(lines) == Some(t));
}

/// Writes a TAS record as its metadata text, one field per line, the
/// attempt table two lines per entry.
pub fn encode_tas(t: &Tas) -> (r: String)
    ensures
        r@ == spec_encode_tas(t@),
{
    let ghost pv = pairs_view(t.attempts@);
    let ghost first5 = seq![
        t@.name,
        t@.minecraft_folder,
        t@.path,
        dec_digits(t@.num_savestates),
        dec_digits(t@.attempts.len()),
    ];
    let mut lines: Vec<String> = Vec::new();
    lines.push(t.name.clone());
    lines.push(t.minecraft_folder.clone());
    lines.push(t.path.clone());
    lines.push(usize_to_string(t.num_savestates));
    lines.push(usize_to_string(t.attempts.len()));
    proof {
        assert(pv.len() == t.attempts@.len());
        assert(lines.deep_view() =~~= first5);
        assert(pv.take(0) =~= Seq::<(Seq<char>, nat)>::empty());
        assert(spec_pair_lines(pv.take(0)) =~= Seq::<Seq<char>>::empty());
        assert(lines.deep_view() =~~= first5 + spec_pair_lines(pv.take(0)));
    }
    let mut i: usize = 0;
    while i < t.attempts.len()
        invariant
            0 <= i <= t.attempts.len(),
            pv == pairs_view(t.attempts@),
            pv.len() == t.attempts@.len(),
            first5 == (seq![
                t@.name,
                t@.minecraft_folder,
                t@.path,
                dec_digits(t@.num_savestates),
                dec_digits(t@.attempts.len()),
            ]),
            lines.deep_view() =~~= first5 + spec_pair_lines(pv.take(i as int)),
        decreases t.attempts.len() - i,
    {
        let ghost before = lines.deep_view();
        lines.push(t.attempts[i].0.clone());
        lines.push(usize_to_string(t.attempts[i].1));
        proof {
            assert(pv[i as int] == (t.attempts@[i as int].0@, t.attempts@[i as int].1 as nat));
            assert(lines.deep_view() =~~= before + seq![pv[i as int].0, dec_digits(pv[i as int].1)]);
            assert(pv.take(i as int + 1) =~= pv.take(i as int).push(pv[i as int]));
            lemma_pair_lines_push(pv.take(i as int), pv[i as int]);
            assert(lines.deep_view() =~~= first5 + spec_pair_lines(pv.take(i as int + 1)));
        }
        i = i + 1;
    }
    proof {
        assert(pv.take(pv.len() as int) =~= pv);
        assert(lines.deep_view() =~~= spec_tas_lines(t@));
    }
    join_lines(&lines)
}

/// Reads a TAS record back from its metadata text. Hands back the record
/// exactly when the text is a well-formed persisted record (as
/// `spec_decode_tas` lays out); a malformed file is rejected, never
/// repaired.
pub fn decode_tas(text: &str) -> (r: Option<Tas>)
    ensures
        match r {
            Some(t) => spec_decode_tas(text@) == Some(t@) && t@.wf(),
            None => spec_decode_tas(text@) is None,
        },
{
    let lines = split_lines(text);
    let ghost lv = lines.deep_view();
    proof {
        assert(lv.len() == lines@.len());
    }
    if lines.len() < 5 {
        return None;
    }
    let count = match parse_usize(lines[3].as_str()) {
        Some(c) => c,
        None => {
            proof {
                assert(lines@[3]@ == lv[3]);
            }
            return None;
        },
    };
    let n = match parse_usize(lines[4].as_str()) {
        Some(v) => v,
        None => {
            proof {
                assert(lines@[4]@ == lv[4]);
            }
            return None;
        },
    };
    let len = lines.len();
    proof {
        assert(lines@[3]@ == lv[3]);
        assert(lines@[4]@ == lv[4]);
        assert(len - 5 == 2 * ((len - 5) / 2) + ((len - 5) % 2));
    }
    if (len - 5) % 2 != 0 || (len - 5) / 2 != n {
        proof {
            assert(lv.len() != 5 + 2 * (n as nat));
        }
        return None;
    }
    proof {
        assert(lv.len() == 5 + 2 * (n as nat));
    }
    let mut attempts: Vec<(String, usize)> = Vec::new();
    let mut i: usize = 0;
    proof {
        assert(pairs_view(attempts@) =~= Seq::<(Seq<char>, nat)>::empty());
        assert(lv.skip(5).skip(0) =~= lv.skip(5));
    }
    while i < n
        invariant
            0 <= i <= n,
            lv == lines.deep_view(),
            lv == spec_split_lines(text@),
            crate::text::all_lines_free(lv),
            lv.len() == lines@.len(),
            lines@.len() == len,
            len == 5 + 2 * n,
            spec_parse_dec(lv[3]) == Some(count as nat),
            spec_parse_dec(lv[4]) == Some(n as nat),
            pairs_view(attempts@).len() == i,
            keys_line_free(pairs_view(attempts@)),
            match spec_parse_pairs(lv.skip(5 + 2 * i as int)) {
                None => spec_parse_pairs(lv.skip(5)) is None,
                Some(rest) => spec_parse_pairs(lv.skip(5)) == Some(pairs_view(attempts@) + rest),
            },
        decreases n - i,
    {
        let ghost tail = lv.skip(5 + 2 * i as int);
        proof {
            assert(tail.len() == 2 * (n - i));
            assert(tail[0] == lv[5 + 2 * i as int]);
            assert(tail[1] == lv[5 + 2 * i as int + 1]);
            assert(tail.skip(2) =~= lv.skip(5 + 2 * (i as int + 1)));
        }
        let key = lines[5 + 2 * i].clone();
        let v = match parse_usize(lines[5 + 2 * i + 1].as_str()) {
            Some(v) => v,
            None => {
                proof {
                    assert(lines@[5 + 2 * i as int + 1]@ == tail[1]);
                    assert(spec_parse_pairs(tail) is None);
                }
                return None;
            },
        };
        let ghost before = pairs_view(attempts@);
        attempts.push((key, v));
        proof {
            assert(lines@[5 + 2 * i as int + 1]@ == tail[1]);
            assert(key@ == tail[0]);
            assert(pairs_view(attempts@) =~= before.push((key@, v as nat)));
            assert(spec_parse_pairs(tail) == Some(
                seq![(tail[0], v as nat)] + match spec_parse_pairs(tail.skip(2)) {
                    None => Seq::<(Seq<char>, nat)>::empty(),
                    Some(rest2) => rest2,
                },
            ) || spec_parse_pairs(tail.skip(2)) is None);
            match spec_parse_pairs(tail.skip(2)) {
                None => {
                    assert(spec_parse_pairs(tail) is None);
                },
                Some(rest2) => {
                    assert(spec_parse_pairs(tail) == Some(seq![(tail[0], v as nat)] + rest2));
                    assert(before + (seq![(tail[0], v as nat)] + rest2) =~~= pairs_view(attempts@)
                        + rest2);
                },
            }
            assert forall|j: int|
                0 <= j < pairs_view(attempts@).len() implies line_free(
                (#[trigger] pairs_view(attempts@)[j]).0,
            ) by {
                if j < before.len() {
                    assert(pairs_view(attempts@)[j] == before[j]);
                } else {
                    assert(pairs_view(attempts@)[j].0 == tail[0]);
                }
            }
        }
        i = i + 1;
    }
    let ghost pairs = pairs_view(attempts@);
    proof {
        assert(lv.skip(5 + 2 * i as int).len() == 0);
        assert(lv.skip(5 + 2 * i as int) =~= Seq::<Seq<char>>::empty());
        assert(spec_parse_pairs(lv.skip(5)) == Some(pairs + Seq::<(Seq<char>, nat)>::empty()));
        assert(pairs + Seq::<(Seq<char>, nat)>::empty() =~~= pairs);
    }
    if has_duplicate_key(&attempts) {
        return None;
    }
    let t = Tas {
        name: lines[0].clone(),
        minecraft_folder: lines[1].clone(),
        path: lines[2].clone(),
        num_savestates: count,
        attempts,
    };
    proof {
        assert(t@.name == lv[0]);
        assert(t@.minecraft_folder == lv[1]);
        assert(t@.path == lv[2]);
        assert(t@.attempts == pairs);
        assert(lines@[3]@ == lv[3]);
        assert(lines@[4]@ == lv[4]);
        assert(spec_decode_lines(lv) == Some(t@));
    }
    Some(t)
}

/// True when two entries of the attempt table carry the same savestate
/// name.
fn has_duplicate_key(v: &Vec<(String, usize)>) -> (r: bool)
    ensures
        r == !unique_keys(pairs_view(v@)),
{
    let ghost pv = pairs_view(v@);
    let mut i: usize = 0;
    while i < v.len()
        invariant
            0 <= i <= v.len(),
            pv == pairs_view(v@),
            pv.len() == v.len(),
            forall|a: int, b: int| 0 <= a < b < i ==> (#[trigger] pv[a]).0 != (#[trigger] pv[b]).0,
        decreases v.len() - i,
    {
        let mut j: usize = 0;
        while j < i
            invariant
                0 <= j <= i < v.len(),
                pv == pairs_view(v@),
                pv.len() == v.len(),
                forall|a: int| 0 <= a < j ==> (#[trigger] pv[a]).0 != pv[i as int].0,
            decreases i - j,
        {
            if v[j].0 == v[i].0 {
                proof {
                    assert(pv[j as int].0 == v@[j as int].0@);
                    assert(pv[i as int].0 == v@[i as int].0@);
                    assert(!unique_keys(pv));
                }
                return true;
            }
            j = j + 1;
        }
        i = i + 1;
    }
    proof {
        assert(unique_keys(pv));
    }
    false
}

/// The source-root paths worth appending to the persisted list: those not
/// yet known, each taken once, in the order they were given.
pub open spec fn spec_new_paths(known: Seq<Seq<char>>, additions: Seq<Seq<char>>) -> Seq<Seq<char>>
    decreases additions.len(),
{
    if additions.len() == 0 {
        Seq::empty()
    } else if crate::worlds::contains_name(known, additions[0]) {
        spec_new_paths(known, additions.drop_first())
    } else {
        seq![additions[0]] + spec_new_paths(known.push(additions[0]), additions.drop_first())
    }
}

/// True when the list holds this path already.
fn contains_string(v: &Vec<String>, a: &String) -> (r: bool)
    ensures
        r == crate::worlds::contains_name(v.deep_view(), a@),
{
    let mut i: usize = 0;
    while i < v.len()
        invariant
            0 <= i <= v.len(),
            v.deep_view().len() == v.len(),
            forall|j: int| 0 <= j < i ==> (#[trigger] v.deep_view()[j]) != a@,
        decreases v.len() - i,
    {
        if v[i] == *a {
            proof {
                assert(v.deep_view()[i as int] == a@);
            }
            return true;
        }
        proof {
            assert(v.deep_view()[i as int] == v@[i as int]@);
        }
        i = i + 1;
    }
    proof {
        if crate::worlds::contains_name(v.deep_view(), a@) {
            let w = choose|w: int|
                0 <= w < v.deep_view().len() && #[trigger] v.deep_view()[w] == a@;
        }
    }
    false
}

/// The paths among `additions` that the persisted source-root list does
/// not hold yet, deduplicated among themselves, in order: exactly what an
/// append-only write adds to the file.
pub fn paths_to_append(existing: &Vec<String>, additions: &Vec<String>) -> (r: Vec<String>)
    ensures
        r.deep_view() == spec_new_paths(existing.deep_view(), additions.deep_view()),
{
    let ghost ex = existing.deep_view();
    let ghost add = additions.deep_view();
    let mut r: Vec<String> = Vec::new();
    let mut i: usize = 0;
    proof {
        assert(r.deep_view() =~= Seq::<Seq<char>>::empty());
        assert(ex + r.deep_view() =~= ex);
        assert(add.skip(0) =~= add);
    }
    while i < additions.len()
        invariant
            0 <= i <= additions.len(),
            ex == existing.deep_view(),
            add == additions.deep_view(),
            add.len() == additions@.len(),
            spec_new_paths(ex, add) =~~= r.deep_view() + spec_new_paths(
                ex + r.deep_view(),
                add.skip(i as int),
            ),
        decreases additions.len() - i,
    {
        let ghost known = ex + r.deep_view();
        let ghost tail = add.skip(i as int);
        proof {
            assert(tail[0] == add[i as int]);
            assert(tail.drop_first() =~= add.skip(i as int + 1));
            assert(add[i as int] == additions@[i as int]@);
        }
        let a = &additions[i];
        let in_existing = contains_string(existing, a);
        let in_new = contains_string(&r, a);
        proof {
            assert(crate::worlds::contains_name(known, a@) == (in_existing || in_new)) by {
                if in_existing {
                    let w = choose|w: int| 0 <= w < ex.len() && #[trigger] ex[w] == a@;
                    assert(known[w] == a@);
                } else if in_new {
                    let w = choose|w: int|
                        0 <= w < r.deep_view().len() && #[trigger] r.deep_view()[w] == a@;
                    assert(known[ex.len() + w] == a@);
                } else {
                    if crate::worlds::contains_name(known, a@) {
                        let w = choose|w: int| 0 <= w < known.len() && #[trigger] known[w] == a@;
                        if w < ex.len() {
                            assert(ex[w] == a@);
                        } else {
                            assert(r.deep_view()[w - ex.len()] == a@);
                        }
                    }
                }
            }
        }
        if !in_existing && !in_new {
            let ghost before = r.deep_view();
            r.push(a.clone());
            proof {
                assert(r.deep_view() =~~= before.push(a@));
                assert(spec_new_paths(known, tail) =~~= seq![a@] + spec_new_paths(
                    known.push(a@),
                    tail.drop_first(),
                ));
                assert(ex + r.deep_view() =~~= known.push(a@));
                assert(before + (seq![a@] + spec_new_paths(known.push(a@), tail.drop_first()))
                    =~~= r.deep_view() + spec_new_paths(ex + r.deep_view(), add.skip(i as int + 1)));
            }
        } else {
            proof {
                assert(spec_new_paths(known, tail) == spec_new_paths(known, tail.drop_first()));
            }
        }
        i = i + 1;
    }
    proof {
        assert(add.skip(add.len() as int) =~= Seq::<Seq<char>>::empty());
        assert(spec_new_paths(ex + r.deep_view(), add.skip(add.len() as int)) =~= Seq::<
            Seq<char>,
        >::empty());
        assert(r.deep_view() + Seq::<Seq<char>>::empty() =~~= r.deep_view());
    }
    r
}


} // verus!
