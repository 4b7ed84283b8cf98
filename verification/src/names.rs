//! The three-field naming scheme for savestate directories:
//! `{tas name}-{sequence number}-{nickname}`, and the attempt-numbered
//! names given to restored worlds: `{savestate name}-{attempt}`.

use crate::digits::{dec_digits, digit_char, push_char, usize_to_string};
use vstd::prelude::*;

verus! {

pub open spec fn hyphen_free(s: Seq<char>) -> bool {
    forall|i: int| 0 <= i < s.len() ==> s[i] != '-'
}

/// How many hyphens a name holds.
pub open spec fn hyphen_count(s: Seq<char>) -> nat
    decreases s.len(),
{
    if s.len() == 0 {
        0
    } else {
        hyphen_count(s.drop_last()) + if s.last() == '-' {
            1nat
        } else {
            0nat
        }
    }
}

/// How many fields a name splits into at its hyphens: one more than the
/// number of hyphens.
pub open spec fn field_count(s: Seq<char>) -> nat {
    hyphen_count(s) + 1
}

/// The name of the savestate directory for one snapshot of a TAS.
pub open spec fn spec_savestate_name(name: Seq<char>, n: nat, nick: Seq<char>) -> Seq<char> {
    name + seq!['-'] + dec_digits(n) + seq!['-'] + nick
}

/// The name of the live-world directory that a restore produces.
pub open spec fn spec_restore_name(base: Seq<char>, attempt: nat) -> Seq<char> {
    base + seq!['-'] + dec_digits(attempt)
}

pub proof fn lemma_hyphen_count_concat(a: Seq<char>, b: Seq<char>)
    ensures
        hyphen_count(a + b) == hyphen_count(a) + hyphen_count(b),
    decreases b.len(),
{
    if b.len() == 0 {
        assert(a + b =~= a);
    } else {
        lemma_hyphen_count_concat(a, b.drop_last());
        assert((a + b).drop_last() =~= a + b.drop_last());
        assert((a + b).last() == b.last());
    }
}

pub proof fn lemma_hyphen_free_count(s: Seq<char>)
    ensures
        hyphen_free(s) <==> hyphen_count(s) == 0,
    decreases s.len(),
{
    if s.len() > 0 {
        lemma_hyphen_free_count(s.drop_last());
        assert(forall|i: int|
            0 <= i < s.len() - 1 ==> s.drop_last()[i] == #[trigger] s[i]);
        if hyphen_free(s.drop_last()) && s.last() != '-' {
            assert forall|i: int| 0 <= i < s.len() implies s[i] != '-' by {
                if i < s.len() - 1 {
                    assert(s.drop_last()[i] != '-');
                }
            }
        }
    }
}

pub proof fn lemma_digits_hyphen_free(n: nat)
    ensures
        hyphen_free(dec_digits(n)),
    decreases n,
{
    assert forall|d: nat| digit_char(d) != '-' by {}
    if n < 10 {
    } else {
        lemma_digits_hyphen_free(n / 10);
        let s = dec_digits(n);
        assert forall|i: int| 0 <= i < s.len() implies s[i] != '-' by {
            if i < s.len() - 1 {
                assert(s[i] == dec_digits(n / 10)[i]);
            }
        }
    }
}

/// The three-field invariant: a savestate name built from a hyphen-free
/// TAS name and a hyphen-free nickname splits into exactly three fields,
/// so the deletion gate will accept it.
pub proof fn lemma_savestate_name_fields(name: Seq<char>, n: nat, nick: Seq<char>)
    requires
        hyphen_free(name),
        hyphen_free(nick),
    ensures
        field_count(spec_savestate_name(name, n, nick)) == 3,
{
    let d = dec_digits(n);
    lemma_hyphen_free_count(name);
    lemma_hyphen_free_count(nick);
    lemma_digits_hyphen_free(n);
    lemma_hyphen_free_count(d);
    lemma_hyphen_count_concat(name, seq!['-']);
    lemma_hyphen_count_concat(name + seq!['-'], d);
    lemma_hyphen_count_concat(name + seq!['-'] + d, seq!['-']);
    lemma_hyphen_count_concat(name + seq!['-'] + d + seq!['-'], nick);
    assert(hyphen_count(seq!['-']) == 1) by {
        let h = seq!['-'];
        assert(h.len() == 1);
        assert(h.last() == '-');
        assert(h.drop_last() =~= Seq::<char>::empty());
        assert(hyphen_count(Seq::<char>::empty()) == 0);
    }
}

/// Savestate names for distinct sequence numbers are distinct: since the
/// counter is never reused, no snapshot ever lands in an earlier
/// snapshot's directory, whatever the nickname.
pub proof fn lemma_savestate_names_distinct(name: Seq<char>, n1: nat, n2: nat, nick: Seq<char>)
    requires
        n1 != n2,
    ensures
        spec_savestate_name(name, n1, nick) != spec_savestate_name(name, n2, nick),
{
    let s1 = spec_savestate_name(name, n1, nick);
    let s2 = spec_savestate_name(name, n2, nick);
    if s1 == s2 {
        let d1 = dec_digits(n1);
        let d2 = dec_digits(n2);
        assert(s1.len() == name.len() + d1.len() + nick.len() + 2);
        assert(s2.len() == name.len() + d2.len() + nick.len() + 2);
        let p = name.len() + 1;
        assert(s1.subrange(p as int, p as int + d1.len() as int) =~= d1);
        assert(s2.subrange(p as int, p as int + d2.len() as int) =~= d2);
        crate::digits::lemma_dec_digits_injective(n1, n2);
    }
}

/// Restore names for distinct attempt numbers are distinct: a later
/// restore never lands in an earlier restore's directory.
pub proof fn lemma_restore_names_distinct(base: Seq<char>, a: nat, b: nat)
    requires
        a != b,
    ensures
        spec_restore_name(base, a) != spec_restore_name(base, b),
{
    let s1 = spec_restore_name(base, a);
    let s2 = spec_restore_name(base, b);
    if s1 == s2 {
        let p = base.len() + 1;
        assert(s1.skip(p as int) =~= dec_digits(a));
        assert(s2.skip(p as int) =~= dec_digits(b));
        crate::digits::lemma_dec_digits_injective(a, b);
    }
}

/// Counts the hyphens of a directory name.
pub fn count_hyphens(s: &str) -> (r: usize)
    ensures
        r == hyphen_count(s@),
        r <= s@.len(),
{
    let n = s.unicode_len();
    let mut count: usize = 0;
    let mut i: usize = 0;
    proof {
        assert(s@.take(0) =~= Seq::<char>::empty());
    }
    while i < n
        invariant
            0 <= i <= n,
            n == s@.len(),
            count == hyphen_count(s@.take(i as int)),
            count <= i,
        decreases n - i,
    {
        let c = s.get_char(i);
        proof {
            assert(s@.take(i as int + 1).drop_last() =~= s@.take(i as int));
            assert(s@.take(i as int + 1).last() == s@[i as int]);
        }
        if c == '-' {
            count = count + 1;
        }
        i = i + 1;
    }
    proof {
        assert(s@.take(n as int) =~= s@);
    }
    count
}

/// Counts the fields of a directory name, the hyphen-separated pieces that
/// the deletion gate examines: one more than the hyphens.
pub fn count_fields(s: &str) -> (r: usize)
    requires
        s@.len() < usize::MAX,
    ensures
        r == field_count(s@),
{
    count_hyphens(s) + 1
}

/// Builds the savestate directory name `{name}-{n}-{nick}`.
pub fn make_savestate_name(name: &str, n: usize, nick: &str) -> (r: String)
    ensures
        r@ == spec_savestate_name(name@, n as nat, nick@),
{
    let mut r = name.to_owned();
    push_char(&mut r, '-');
    let d = usize_to_string(n);
    r.append(d.as_str());
    push_char(&mut r, '-');
    r.append(nick);
    proof {
        assert(r@ =~= spec_savestate_name(name@, n as nat, nick@));
    }
    r
}

/// Builds the restored-world directory name `{base}-{attempt}`.
pub fn make_restore_name(base: &str, attempt: usize) -> (r: String)
    ensures
        r@ == spec_restore_name(base@, attempt as nat),
{
    let mut r = base.to_owned();
    push_char(&mut r, '-');
    let d = usize_to_string(attempt);
    r.append(d.as_str());
    proof {
        assert(r@ =~= spec_restore_name(base@, attempt as nat));
    }
    r
}

} // verus!
