//! Line-oriented text handling for the persisted metadata files: joining
//! records into newline-terminated lines and splitting them back.

use vstd::prelude::*;

verus! {

/// True when a sequence of characters contains no newline, so that it can
/// stand as one line of a line-oriented metadata file.
pub open spec fn line_free(s: Seq<char>) -> bool {
    forall|i: int| 0 <= i < s.len() ==> s[i] != '\n'
}

pub open spec fn all_lines_free(lines: Seq<Seq<char>>) -> bool {
    forall|i: int| 0 <= i < lines.len() ==> line_free(#[trigger] lines[i])
}

/// Each line followed by a terminating newline.
pub open spec fn spec_join_lines(lines: Seq<Seq<char>>) -> Seq<char>
    decreases lines.len(),
{
    if lines.len() == 0 {
        Seq::empty()
    } else {
        spec_join_lines(lines.drop_last()) + lines.last() + seq!['\n']
    }
}

/// Pushes a character onto the front of the first line, so that splitting
/// can be defined one character at a time.
pub open spec fn prepend_first(c: char, lines: Seq<Seq<char>>) -> Seq<Seq<char>> {
    if lines.len() == 0 {
        seq![seq![c]]
    } else {
        seq![seq![c] + lines[0]] + lines.drop_first()
    }
}

/// Splits text into its newline-separated lines; a final unterminated line
/// is kept, and the terminators themselves are dropped.
pub open spec fn spec_split_lines(s: Seq<char>) -> Seq<Seq<char>>
    decreases s.len(),
{
    if s.len() == 0 {
        Seq::empty()
    } else if s[0] == '\n' {
        seq![Seq::<char>::empty()] + spec_split_lines(s.drop_first())
    } else {
        prepend_first(s[0], spec_split_lines(s.drop_first()))
    }
}

proof fn lemma_join_first(lines: Seq<Seq<char>>)
    requires
        lines.len() > 0,
    ensures
        spec_join_lines(lines) =~= lines.first() + seq!['\n'] + spec_join_lines(
            lines.drop_first(),
        ),
    decreases lines.len(),
{
    if lines.len() == 1 {
        assert(lines.drop_last() =~= Seq::<Seq<char>>::empty());
        assert(lines.drop_first() =~= Seq::<Seq<char>>::empty());
        assert(lines.last() == lines.first());
    } else {
        lemma_join_first(lines.drop_last());
        assert(lines.drop_last().first() == lines.first());
        assert(lines.drop_last().drop_first() =~= lines.drop_first().drop_last());
        assert(lines.drop_first().last() == lines.last());
        assert(spec_join_lines(lines.drop_first()) == spec_join_lines(
            lines.drop_first().drop_last(),
        ) + lines.drop_first().last() + seq!['\n']);
    }
}

/// Splitting text that holds no newline yields that text as its one line.
proof fn lemma_split_line_free(l: Seq<char>)
    requires
        line_free(l),
    ensures
        l.len() == 0 ==> spec_split_lines(l) =~= Seq::<Seq<char>>::empty(),
        l.len() > 0 ==> spec_split_lines(l) =~= seq![l],
    decreases l.len(),
{
    if l.len() > 0 {
        assert(l[0] != '\n');
        lemma_split_line_free(l.drop_first());
        if l.len() == 1 {
            assert(spec_split_lines(l) =~= seq![seq![l[0]]]);
            assert(seq![l[0]] =~= l);
        } else {
            let rest = spec_split_lines(l.drop_first());
            assert(rest =~= seq![l.drop_first()]);
            assert(seq![l[0]] + l.drop_first() =~= l);
            assert(prepend_first(l[0], rest) =~= seq![l]);
        }
    }
}

/// Splitting one terminated line off the front of a text.
proof fn lemma_split_prefix(line: Seq<char>, rest: Seq<char>)
    requires
        line_free(line),
    ensures
        spec_split_lines(line + seq!['\n'] + rest) =~~= seq![line] + spec_split_lines(rest),
    decreases line.len(),
{
    let s = line + seq!['\n'] + rest;
    if line.len() == 0 {
        assert(s[0] == '\n');
        assert(s.drop_first() =~= rest);
        assert(line =~= Seq::<char>::empty());
        assert(spec_split_lines(s) =~~= seq![line] + spec_split_lines(rest));
    } else {
        assert(s[0] == line[0]);
        assert(s[0] != '\n');
        assert(s.drop_first() =~= line.drop_first() + seq!['\n'] + rest);
        lemma_split_prefix(line.drop_first(), rest);
        let inner = spec_split_lines(s.drop_first());
        assert(inner =~~= seq![line.drop_first()] + spec_split_lines(rest));
        assert(inner.len() > 0);
        assert(inner[0] == line.drop_first());
        assert(seq![s[0]] + inner[0] =~= line);
        assert(inner.drop_first() =~= spec_split_lines(rest));
        assert(prepend_first(s[0], inner) =~~= seq![line] + spec_split_lines(rest));
    }
}

/// Joining newline-free lines and splitting the result gives the lines
/// back unchanged: the persisted file is read exactly as it was written.
pub proof fn lemma_split_join(lines: Seq<Seq<char>>)
    requires
        all_lines_free(lines),
    ensures
        spec_split_lines(spec_join_lines(lines)) =~~= lines,
    decreases lines.len(),
{
    if lines.len() == 0 {
    } else {
        lemma_join_first(lines);
        assert(line_free(lines.first()));
        lemma_split_prefix(lines.first(), spec_join_lines(lines.drop_first()));
        assert(all_lines_free(lines.drop_first()));
        lemma_split_join(lines.drop_first());
        assert(seq![lines.first()] + lines.drop_first() =~~= lines);
    }
}

/// Joins records into a newline-terminated text, one record per line.
pub fn join_lines(lines: &Vec<String>) -> (r: String)
    ensures
        r@ == spec_join_lines(lines.deep_view()),
{
    let mut r = String::new();
    let mut i: usize = 0;
    proof {
        assert(lines.deep_view().take(0) =~= Seq::<Seq<char>>::empty());
    }
    while i < lines.len()
        invariant
            0 <= i <= lines.len(),
            lines.deep_view().len() == lines.len(),
            r@ == spec_join_lines(lines.deep_view().take(i as int)),
        decreases lines.len() - i,
    {
        r.append(lines[i].as_str());
        crate::digits::push_char(&mut r, '\n');
        proof {
            let dv = lines.deep_view();
            assert(dv.take(i as int + 1).drop_last() =~= dv.take(i as int));
            assert(dv.take(i as int + 1).last() == dv[i as int]);
            assert(dv[i as int] == lines[i as int]@);
            assert(r@ =~= spec_join_lines(dv.take(i as int)) + dv[i as int] + seq!['\n']);
        }
        i = i + 1;
    }
    proof {
        assert(lines.deep_view().take(lines.len() as int) =~= lines.deep_view());
    }
    r
}

/// Splits a text into its lines, exactly as `spec_split_lines` describes.
pub fn split_lines(s: &str) -> (r: Vec<String>)
    ensures
        r.deep_view() == spec_split_lines(s@),
        all_lines_free(r.deep_view()),
{
    let n = s.unicode_len();
    let mut out: Vec<String> = Vec::new();
    let mut cur = String::new();
    let mut i: usize = 0;
    proof {
        assert(cur@ + s@.skip(0) =~= s@);
        assert(out.deep_view() =~= Seq::<Seq<char>>::empty());
        assert(spec_split_lines(s@) =~~= out.deep_view() + spec_split_lines(cur@ + s@.skip(0)));
    }
    while i < n
        invariant
            0 <= i <= n,
            n == s@.len(),
            line_free(cur@),
            all_lines_free(out.deep_view()),
            spec_split_lines(s@) =~~= out.deep_view() + spec_split_lines(
                cur@ + s@.skip(i as int),
            ),
        decreases n - i,
    {
        let c = s.get_char(i);
        if c == '\n' {
            proof {
                assert(cur@ + s@.skip(i as int) =~= cur@ + seq!['\n'] + s@.skip(i as int + 1));
                lemma_split_prefix(cur@, s@.skip(i as int + 1));
            }
            let done = cur;
            cur = String::new();
            let ghost old_out = out.deep_view();
            out.push(done);
            proof {
                assert(out.deep_view() =~= old_out.push(done@));
                assert(old_out.push(done@) =~= old_out + seq![done@]);
                assert(cur@ + s@.skip(i as int + 1) =~= s@.skip(i as int + 1));
            }
        } else {
            let ghost old_cur = cur@;
            crate::digits::push_char(&mut cur, c);
            proof {
                assert(old_cur + s@.skip(i as int) =~= cur@ + s@.skip(i as int + 1));
            }
        }
        i = i + 1;
    }
    proof {
        assert(cur@ + s@.skip(n as int) =~= cur@);
        lemma_split_line_free(cur@);
    }
    if !cur.as_str().is_empty() {
        let ghost old_out = out.deep_view();
        proof {
            assert(cur@.len() > 0);
        }
        out.push(cur);
        proof {
            assert(out.deep_view() =~= old_out + seq![cur@]);
        }
    } else {
        proof {
            assert(cur@.len() == 0);
            assert(out.deep_view() + spec_split_lines(cur@) =~= out.deep_view());
        }
    }
    out
}

} // verus!
