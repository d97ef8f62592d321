//! `tail`: the last lines of a text.
//!
//! The text is scanned backwards from its end, counting line feeds; the
//! output starts just after the line feed that makes the count one more than
//! the number of lines asked for, or at the start of the text. Its last
//! character is dropped and a line feed printed after it.
use vstd::prelude::*;
use vstd::string::*;
use crate::files::{count_newlines, law_newline_counts_add, str_from_utf8, FileError};
use vstd::slice::slice_subrange;
use vstd::utf8::{decode_utf8, encode_utf8_decode_utf8, valid_utf8};
use crate::text::{
    lemma_first_match_first, lemma_first_match_bounds,
    chars_of, first_match, lemma_first_match_at, lemma_first_match_none, matches_at, push_char,
    push_chars,
};

verus! {

proof fn lemma_count_newlines_bounds(s: Seq<u8>, p: int)
    requires
        0 <= p <= s.len(),
    ensures
        count_newlines(s.skip(p)) <= count_newlines(s),
        count_newlines(s.skip(p)) <= s.len() - p,
    decreases p,
{
    lemma_count_le_len(s.skip(p));
    if p == 0 {
        assert(s.skip(0) =~= s);
    } else {
        lemma_count_newlines_bounds(s, p - 1);
        assert(s.skip(p - 1).drop_first() =~= s.skip(p));
    }
}

proof fn lemma_count_le_len(s: Seq<u8>)
    ensures
        count_newlines(s) <= s.len(),
    decreases s.len(),
{
    if s.len() > 0 {
        lemma_count_le_len(s.drop_first());
    }
}

/// Whether `p` is where `tail` starts printing `content` for `n` lines: just
/// after the line feed with exactly `n` line feeds after it, or at the start
/// where there is no such line feed.
pub open spec fn is_tail_start(content: Seq<u8>, n: nat, p: int) -> bool {
    if count_newlines(content) > n {
        0 < p <= content.len() && content[p - 1] == 10 && count_newlines(content.skip(p)) == n
    } else {
        p == 0
    }
}

/// The one place where `tail` starts printing `content` for `n` lines.
pub open spec fn tail_start_of(content: Seq<u8>, n: nat) -> int {
    choose|p: int| is_tail_start(content, n, p)
}

/// There is only one place where `tail` can start.
pub proof fn lemma_tail_start_unique(content: Seq<u8>, n: nat, p1: int, p2: int)
    requires
        is_tail_start(content, n, p1),
        is_tail_start(content, n, p2),
    ensures
        p1 == p2,
{
    if count_newlines(content) > n && p1 != p2 {
        let (a, b) = if p1 < p2 { (p1, p2) } else { (p2, p1) };
        let mid = content.subrange(a, b - 1);
        law_newline_counts_add(mid, seq![10u8]);
        law_newline_counts_add(mid.push(10u8), content.skip(b));
        assert(seq![10u8].drop_first() =~= Seq::<u8>::empty());
        assert(count_newlines(Seq::<u8>::empty()) == 0);
        assert(seq![10u8][0] == 10);
        assert(count_newlines(seq![10u8]) == 1);
        assert(mid + seq![10u8] =~= mid.push(10u8));
        assert(mid.push(10u8) + content.skip(b) =~= content.skip(a));
    }
}

/// Where the output of `tail` starts in `content`: just after the line feed
/// with exactly `line_count` line feeds after it, or at the start where there
/// is no such line feed.
pub fn tail_start(content: &[u8], line_count: usize) -> (p: usize)
    ensures
        p <= content@.len(),
        count_newlines(content@) > line_count ==> p > 0 && content@[p - 1] == 10
            && count_newlines(content@.skip(p as int)) == line_count,
        count_newlines(content@) <= line_count ==> p == 0,
        is_tail_start(content@, line_count as nat, p as int),
{
    let mut pos: usize = content.len();
    let mut count: usize = 0;
    assert(content@.skip(pos as int) =~= Seq::<u8>::empty());
    while pos > 0
        invariant
            pos <= content@.len(),
            count == count_newlines(content@.skip(pos as int)),
            count <= line_count,
        decreases pos,
    {
        pos = pos - 1;
        proof {
            lemma_count_newlines_bounds(content@, pos as int);
        }
        assert(content@.skip(pos as int).drop_first() =~= content@.skip(pos + 1));
        if content[pos] == 10u8 {
            count = count + 1;
        }
        if count > line_count {
            return pos + 1;
        }
    }
    assert(content@.skip(0) =~= content@);
    0
}

/// What `tail` prints of the text from the start offset: the text without
/// its last character, then a line feed.
pub open spec fn tail_text(s: Seq<char>) -> Seq<char> {
    (if s.len() == 0 { s } else { s.drop_last() }).push('\n')
}

/// The text printed for the text from the start offset.
pub fn tail_output(s: &str) -> (r: String)
    ensures
        r@ == tail_text(s@),
{
    let n = s.unicode_len();
    let keep = if n == 0 { 0 } else { n - 1 };
    let mut out = s.substring_char(0, keep).to_owned();
    proof {
        reveal_strlit("\n");
    }
    out.append("\n");
    assert(out@ =~= tail_text(s@));
    out
}

/// What `tail` prints for `line_count` lines of `content`: the bytes from
/// the start offset read as UTF-8 text, without their last character, then a
/// line feed; an error where those bytes are not valid UTF-8.
pub fn seek_tail(content: &[u8], line_count: usize) -> (r: Result<String, FileError>)
    ensures
        ({
            let rest = content@.skip(tail_start_of(content@, line_count as nat));
            &&& r is Ok <==> valid_utf8(rest)
            &&& r matches Ok(s) ==> s@ == tail_text(decode_utf8(rest))
            &&& r is Err ==> r == Err::<String, FileError>(FileError::InvalidUtf8)
        }),
{
    let p = tail_start(content, line_count);
    proof {
        lemma_tail_start_unique(content@, line_count as nat, p as int, tail_start_of(content@, line_count as nat));
    }
    let rest = slice_subrange(content, p, content.len());
    assert(rest@ =~= content@.skip(p as int));
    match str_from_utf8(rest) {
        Ok(text) => {
            proof {
                encode_utf8_decode_utf8(text@);
            }
            Ok(tail_output(text))
        },
        Err(_) => Err(FileError::InvalidUtf8),
    }
}

/// A line without the carriage return that ends it, if one does.
pub open spec fn strip_cr(l: Seq<char>) -> Seq<char> {
    if l.len() > 0 && l.last() == '\r' {
        l.drop_last()
    } else {
        l
    }
}

/// The lines of a text as `BufRead::lines` yields them: split at each line
/// feed, a carriage return before the line feed dropped; a last line without
/// a line feed is kept as it is.
pub open spec fn lines_of(s: Seq<char>) -> Seq<Seq<char>>
    decreases s.len(),
{
    if s.len() == 0 {
        seq![]
    } else {
        let i = first_match(s, seq!['\n'], 0);
        if i >= s.len() {
            seq![s]
        } else {
            seq![strip_cr(s.take(i as int))].add(lines_of(s.skip((i + 1) as int)))
        }
    }
}

/// The text made of the lines of `s`, each followed by a line feed.
pub open spec fn line_terminated(s: Seq<char>) -> Seq<char> {
    lines_of(s).map_values(|l: Seq<char>| l.push('\n')).flatten()
}

/// Rewrites a text as the lines that `BufRead::lines` reads from it, each
/// followed by a line feed.
pub fn normalize_lines(s: &str) -> (r: String)
    ensures
        r@ == line_terminated(s@),
{
    let ghost nl = seq!['\n'];
    let cs = chars_of(s);
    let n = cs.len();
    let mut out = String::new();
    let mut pos: usize = 0;
    assert(cs@.skip(0) =~= s@);
    while pos < n
        invariant
            nl == seq!['\n'],
            cs@ == s@,
            n == cs.len(),
            pos <= n,
            out@ + line_terminated(cs@.skip(pos as int)) == line_terminated(s@),
        decreases n - pos,
    {
        let ghost t = cs@.skip(pos as int);
        let ghost old_out = out@;
        let mut j = pos;
        while j < n && cs[j] != '\n'
            invariant
                cs@ == s@,
                n == cs.len(),
                pos <= j <= n,
                t == cs@.skip(pos as int),
                forall|u: int| pos <= u < j ==> cs@[u] != '\n',
            decreases n - j,
        {
            j = j + 1;
        }
        proof {
            assert forall|u: int| 0 <= u < j - pos implies !matches_at(t, nl, u) by {
                if matches_at(t, nl, u) {
                    assert(t.subrange(u, u + 1)[0] == '\n');
                    assert(t[u] == cs@[pos + u]);
                }
            }
        }
        let terminated = j < n;
        let end = if terminated && j > pos && cs[j - 1] == '\r' { j - 1 } else { j };
        push_chars(&mut out, &cs, pos, end);
        push_char(&mut out, '\n');
        let ghost piece = t.take(j - pos);
        let ghost mapped = lines_of(t).map_values(|l: Seq<char>| l.push('\n'));
        if terminated {
            proof {
                assert(t.subrange(j - pos, j - pos + 1) =~= nl);
                lemma_first_match_at(t, nl, 0, (j - pos) as nat);
                let next = cs@.skip(j + 1);
                assert(t.skip(j - pos + 1) =~= next);
                assert(cs@.subrange(pos as int, end as int) =~= strip_cr(piece));
                let rest_mapped = lines_of(next).map_values(|l: Seq<char>| l.push('\n'));
                assert(mapped.drop_first() =~= rest_mapped);
                assert(line_terminated(t) == mapped.first() + rest_mapped.flatten());
                assert(out@ + line_terminated(next) =~= old_out + line_terminated(t));
            }
            pos = j + 1;
        } else {
            proof {
                assert forall|u: int| j - pos <= u implies !matches_at(t, nl, u) by {
                    if matches_at(t, nl, u) {
                        assert(t.subrange(u, u + 1)[0] == '\n');
                    }
                }
                lemma_first_match_none(t, nl, 0);
                assert(cs@.subrange(pos as int, end as int) =~= t);
                assert(lines_of(t) =~= seq![t]);
                assert(mapped.drop_first() =~= Seq::<Seq<char>>::empty());
                assert(mapped.drop_first().flatten() =~= Seq::<char>::empty());
                assert(line_terminated(t) == mapped.first() + Seq::<char>::empty());
                assert(cs@.skip(n as int) =~= Seq::<char>::empty());
                assert(line_terminated(cs@.skip(n as int)) =~= Seq::<char>::empty());
                assert(out@ + line_terminated(cs@.skip(n as int)) =~= old_out + line_terminated(t));
            }
            pos = n;
        }
    }
    assert(cs@.skip(n as int) =~= Seq::<char>::empty());
    assert(line_terminated(cs@.skip(n as int)) =~= Seq::<char>::empty());
    assert(out@ =~= out@ + line_terminated(cs@.skip(n as int)));
    out
}

/// `tail` prints the text from its start offset with only its last
/// character replaced by a line feed: as long as the text (one character for
/// an empty text), the same characters before the last, a line feed last.
pub proof fn law_tail_text_replaces_last_char(s: Seq<char>)
    ensures
        tail_text(s).len() == (if s.len() == 0 { 1 } else { s.len() }),
        forall|i: int| 0 <= i < tail_text(s).len() - 1 ==> tail_text(s)[i] == s[i],
        tail_text(s).last() == '\n',
{
}

/// A text that ends in a line feed is printed as it is, so no trailing
/// blank line is ever dropped.
pub proof fn law_tail_keeps_terminated_text(s: Seq<char>)
    requires
        s.len() > 0,
        s.last() == '\n',
    ensures
        tail_text(s) == s,
{
    assert(tail_text(s) =~= s);
}

proof fn lemma_line_terminated_step(s: Seq<char>)
    requires
        s.len() > 0,
    ensures
        first_match(s, seq!['\n'], 0) >= s.len() ==> line_terminated(s) == s.push('\n'),
        first_match(s, seq!['\n'], 0) < s.len() ==> line_terminated(s) == strip_cr(
            s.take(first_match(s, seq!['\n'], 0) as int),
        ).push('\n') + line_terminated(s.skip(first_match(s, seq!['\n'], 0) as int + 1)),
{
    let i = first_match(s, seq!['\n'], 0) as int;
    let mapped = lines_of(s).map_values(|l: Seq<char>| l.push('\n'));
    if i >= s.len() {
        assert(lines_of(s) =~= seq![s]);
        assert(mapped.drop_first() =~= Seq::<Seq<char>>::empty());
        assert(mapped.drop_first().flatten() =~= Seq::<char>::empty());
        assert(line_terminated(s) =~= s.push('\n'));
    } else {
        let next = s.skip(i + 1);
        let rest_mapped = lines_of(next).map_values(|l: Seq<char>| l.push('\n'));
        assert(mapped.drop_first() =~= rest_mapped);
    }
}

/// Normalizing gives back a text that has no carriage return and ends in a
/// line feed (or is empty): every line, blank ones included, is kept.
pub proof fn law_normalize_keeps_lf_text(s: Seq<char>)
    requires
        !s.contains('\r'),
        s.len() == 0 || s.last() == '\n',
    ensures
        line_terminated(s) == s,
    decreases s.len(),
{
    let nl = seq!['\n'];
    if s.len() == 0 {
        assert(lines_of(s) =~= Seq::<Seq<char>>::empty());
        assert(line_terminated(s) =~= s);
    } else {
        assert(s.subrange(s.len() - 1, s.len() as int) =~= nl);
        lemma_first_match_first(s, nl, 0, s.len() - 1);
        lemma_first_match_bounds(s, nl, 0);
        let i = first_match(s, nl, 0) as int;
        lemma_line_terminated_step(s);
        assert(s.subrange(i, i + 1)[0] == '\n');
        let head = s.take(i);
        let next = s.skip(i + 1);
        if head.len() > 0 {
            assert(head.last() == s[i - 1]);
        }
        assert(strip_cr(head) == head);
        if next.len() > 0 {
            assert(next.last() == s.last());
        }
        assert forall|k: int| 0 <= k < next.len() implies next[k] != '\r' by {
            assert(next[k] == s[i + 1 + k]);
        }
        law_normalize_keeps_lf_text(next);
        assert(s =~= head.push('\n') + next);
    }
}

/// A line ending in a carriage return and line feed is written as its text
/// before the carriage return and one line feed; the lines after it are
/// written as they would be alone.
pub proof fn law_normalize_crlf_line(l: Seq<char>, rest: Seq<char>)
    requires
        !l.contains('\n'),
    ensures
        line_terminated(l + seq!['\r', '\n'] + rest) == l.push('\n') + line_terminated(rest),
{
    let nl = seq!['\n'];
    let s = l + seq!['\r', '\n'] + rest;
    let t: int = l.len() as int + 1;
    assert forall|u: int| 0 <= u < t implies !matches_at(s, nl, u) by {
        if matches_at(s, nl, u) {
            assert(s.subrange(u, u + 1)[0] == '\n');
            if u < l.len() {
                assert(s[u] == l[u]);
            }
        }
    }
    assert(s.subrange(t, t + 1) =~= nl);
    lemma_first_match_at(s, nl, 0, t as nat);
    lemma_line_terminated_step(s);
    assert(s.take(t) =~= l.push('\r'));
    assert(strip_cr(l.push('\r')) =~= l);
    assert(s.skip(t + 1) =~= rest);
}

/// The number of line feeds in a text.
pub open spec fn count_lf(s: Seq<char>) -> nat
    decreases s.len(),
{
    if s.len() == 0 {
        0
    } else {
        count_lf(s.drop_last()) + (if s.last() == '\n' { 1nat } else { 0nat })
    }
}

proof fn lemma_count_lf_add(a: Seq<char>, b: Seq<char>)
    ensures
        count_lf(a + b) == count_lf(a) + count_lf(b),
    decreases b.len(),
{
    if b.len() == 0 {
        assert(a + b =~= a);
    } else {
        lemma_count_lf_add(a, b.drop_last());
        assert((a + b).drop_last() =~= a + b.drop_last());
    }
}

proof fn lemma_count_lf_none(a: Seq<char>)
    requires
        !a.contains('\n'),
    ensures
        count_lf(a) == 0,
    decreases a.len(),
{
    if a.len() > 0 {
        assert(a.last() == a[a.len() - 1]);
        assert(!a.drop_last().contains('\n')) by {
            assert forall|k: int| 0 <= k < a.drop_last().len() implies a.drop_last()[k] != '\n' by {
                assert(a.drop_last()[k] == a[k]);
            }
        }
        lemma_count_lf_none(a.drop_last());
    }
}

/// Normalizing keeps every line: the result has as many line feeds as the
/// text, plus one where the text's last line has none.
pub proof fn law_normalize_line_count(s: Seq<char>)
    ensures
        count_lf(line_terminated(s)) == count_lf(s) + (if s.len() > 0 && s.last() != '\n' {
            1nat
        } else {
            0nat
        }),
    decreases s.len(),
{
    let nl = seq!['\n'];
    if s.len() == 0 {
        assert(lines_of(s) =~= Seq::<Seq<char>>::empty());
        assert(line_terminated(s) =~= s);
    } else {
        lemma_first_match_bounds(s, nl, 0);
        lemma_line_terminated_step(s);
        let i = first_match(s, nl, 0) as int;
        assert(count_lf(seq!['\n']) == 1) by {
            assert(seq!['\n'].drop_last() =~= Seq::<char>::empty());
            assert(count_lf(Seq::<char>::empty()) == 0);
            assert(seq!['\n'].last() == '\n');
        }
        if i >= s.len() {
            assert forall|k: int| 0 <= k < s.len() implies s[k] != '\n' by {
                if s[k] == '\n' {
                    assert(s.subrange(k, k + 1) =~= nl);
                    lemma_first_match_first(s, nl, 0, k);
                }
            }
            lemma_count_lf_none(s);
            lemma_count_lf_add(s, seq!['\n']);
            assert(s + seq!['\n'] =~= s.push('\n'));
        } else {
            let head = s.take(i);
            let next = s.skip(i + 1);
            assert forall|k: int| 0 <= k < head.len() implies head[k] != '\n' by {
                if s[k] == '\n' {
                    assert(s.subrange(k, k + 1) =~= nl);
                    lemma_first_match_first(s, nl, 0, k);
                }
            }
            let sh = strip_cr(head);
            assert(!sh.contains('\n')) by {
                assert forall|k: int| 0 <= k < sh.len() implies sh[k] != '\n' by {
                    assert(sh[k] == head[k]);
                }
            }
            lemma_count_lf_none(head);
            lemma_count_lf_none(sh);
            assert(s.subrange(i, i + 1)[0] == '\n');
            assert(s =~= head + seq!['\n'] + next);
            lemma_count_lf_add(head, seq!['\n']);
            lemma_count_lf_add(head + seq!['\n'], next);
            lemma_count_lf_add(sh, seq!['\n']);
            assert(sh + seq!['\n'] =~= sh.push('\n'));
            lemma_count_lf_add(sh.push('\n'), line_terminated(next));
            law_normalize_line_count(next);
            if next.len() > 0 {
                assert(next.last() == s.last());
            }
        }
    }
}

} // verus!
