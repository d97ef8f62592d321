//! Character-sequence helpers shared by the tools: decimal rendering and
//! parsing of counts, and searching for separators.
use vstd::prelude::*;
use vstd::string::*;

verus! {

/// The ASCII character of a decimal digit.
pub open spec fn digit_char(d: nat) -> char {
    (48 + d) as char
}

/// The shortest decimal rendering of `n` (no sign, no leading zeros).
pub open spec fn decimal(n: nat) -> Seq<char>
    decreases n,
{
    if n < 10 {
        seq![digit_char(n)]
    } else {
        decimal(n / 10).push(digit_char(n % 10))
    }
}

fn digit_str(d: usize) -> (s: &'static str)
    requires
        d < 10,
    ensures
        s@ == seq![digit_char(d as nat)],
{
    proof {
        reveal_strlit("0");
        reveal_strlit("1");
        reveal_strlit("2");
        reveal_strlit("3");
        reveal_strlit("4");
        reveal_strlit("5");
        reveal_strlit("6");
        reveal_strlit("7");
        reveal_strlit("8");
        reveal_strlit("9");
    }
    match d {
        0 => "0",
        1 => "1",
        2 => "2",
        3 => "3",
        4 => "4",
        5 => "5",
        6 => "6",
        7 => "7",
        8 => "8",
        _ => "9",
    }
}

/// Renders `n` in decimal, as `n.to_string()` does.
pub fn decimal_string(n: usize) -> (s: String)
    ensures
        s@ == decimal(n as nat),
    decreases n,
{
    if n < 10 {
        digit_str(n).to_owned()
    } else {
        let mut s = decimal_string(n / 10);
        s.append(digit_str(n % 10));
        s
    }
}


/// Whether `c` is an ASCII decimal digit.
pub open spec fn is_digit(c: char) -> bool {
    '0' <= c && c <= '9'
}

/// Whether every character of `s` is an ASCII decimal digit.
pub open spec fn all_digits(s: Seq<char>) -> bool {
    forall|i: int| 0 <= i < s.len() ==> is_digit(#[trigger] s[i])
}

/// The number written by the decimal digits `s` (most significant first).
pub open spec fn digits_value(s: Seq<char>) -> nat
    decreases s.len(),
{
    if s.len() == 0 {
        0
    } else {
        digits_value(s.drop_last()) * 10 + ((s.last() as nat) - 48) as nat
    }
}

/// The digits of a count: one leading `+` is allowed before them.
pub open spec fn unsigned_digits(s: Seq<char>) -> Seq<char> {
    if s.len() > 0 && s[0] == '+' {
        s.drop_first()
    } else {
        s
    }
}

/// What `str::parse::<usize>` gives: the value of an optional `+` followed by
/// at least one decimal digit, when it fits in a `usize`.
pub open spec fn parsed_count(s: Seq<char>) -> Option<nat> {
    let d = unsigned_digits(s);
    if d.len() > 0 && all_digits(d) && digits_value(d) <= usize::MAX {
        Some(digits_value(d))
    } else {
        None
    }
}

proof fn lemma_decimal_digits(n: nat)
    ensures
        decimal(n).len() > 0,
        all_digits(decimal(n)),
        digits_value(decimal(n)) == n,
        decimal(n)[0] != '+',
    decreases n,
{
    assert(digit_char(n % 10) as nat == 48 + n % 10);
    if n < 10 {
        assert(digit_char(n) as nat == 48 + n);
        assert(decimal(n).drop_last() =~= Seq::<char>::empty());
        assert(digits_value(Seq::<char>::empty()) == 0);
        assert(decimal(n).last() == digit_char(n));
    } else {
        lemma_decimal_digits(n / 10);
        let d = decimal(n / 10);
        assert(n == (n / 10) * 10 + n % 10);
        assert(decimal(n).drop_last() =~= d);
        assert(decimal(n)[0] == d[0]);
        assert(decimal(n).last() == digit_char(n % 10));
        assert(digits_value(decimal(n)) == digits_value(d) * 10 + n % 10);
    }
}

/// Reading back the decimal rendering of a count gives the count.
pub proof fn law_count_round_trip(n: nat)
    requires
        n <= usize::MAX,
    ensures
        parsed_count(decimal(n)) == Some(n),
{
    lemma_decimal_digits(n);
}

/// `String::push`: appends the character `c` to `s`.
#[verifier::external_body]
pub(crate) fn push_char(s: &mut String, c: char)
    ensures
        final(s)@ == old(s)@.push(c),
{
    s.push(c);
}

/// Appends `cs[from..to]` to `out`.
pub fn push_chars(out: &mut String, cs: &Vec<char>, from: usize, to: usize)
    requires
        from <= to <= cs.len(),
    ensures
        final(out)@ == old(out)@ + cs@.subrange(from as int, to as int),
{
    let mut q = from;
    while q < to
        invariant
            from <= q <= to <= cs.len(),
            out@ == old(out)@ + cs@.subrange(from as int, q as int),
        decreases to - q,
    {
        push_char(out, cs[q]);
        q = q + 1;
        assert(out@ =~= old(out)@ + cs@.subrange(from as int, q as int));
    }
}

/// The characters of `s`, one per element.
pub fn chars_of(s: &str) -> (v: Vec<char>)
    ensures
        v@ == s@,
{
    broadcast use vstd::string::group_string_axioms;
    let mut v: Vec<char> = Vec::new();
    for c in it: s.chars()
        invariant
            it.seq() == s@,
            v@ == s@.take(it.index()),
    {
        v.push(c);
        assert(v@ =~= s@.take(it.index() + 1));
    }
    assert(v@ =~= s@);
    v
}

proof fn lemma_digits_value_prefix(s: Seq<char>, i: int)
    requires
        0 <= i <= s.len(),
        all_digits(s),
    ensures
        digits_value(s.take(i)) <= digits_value(s),
    decreases s.len() - i,
{
    if i < s.len() {
        lemma_digits_value_prefix(s, i + 1);
        let t = s.take(i + 1);
        assert(t.drop_last() =~= s.take(i));
        assert(is_digit(s[i]));
    } else {
        assert(s.take(i) =~= s);
    }
}

/// Parses a count as `str::parse::<usize>` does; `None` where that fails.
pub fn parse_count(s: &str) -> (r: Option<usize>)
    ensures
        r matches Some(n) ==> parsed_count(s@) == Some(n as nat),
        r is None ==> parsed_count(s@) is None,
{
    let cs = chars_of(s);
    let mut start: usize = 0;
    if cs.len() > 0 && cs[0] == '+' {
        start = 1;
    }
    let ghost d = unsigned_digits(s@);
    assert(d =~= cs@.skip(start as int));
    if start >= cs.len() {
        return None;
    }
    let mut acc: usize = 0;
    let mut i: usize = start;
    while i < cs.len()
        invariant
            cs@ == s@,
            d == cs@.skip(start as int),
            d == unsigned_digits(s@),
            start <= i <= cs.len(),
            forall|j: int| 0 <= j < i - start ==> is_digit(#[trigger] d[j]),
            acc as nat == digits_value(d.take(i - start)),
        decreases cs.len() - i,
    {
        let c = cs[i];
        if !('0' <= c && c <= '9') {
            assert(!is_digit(d[i - start]));
            return None;
        }
        let dv = (c as u32 - 48) as usize;
        assert(d.take(i - start + 1).drop_last() =~= d.take(i - start));
        if acc > (usize::MAX - dv) / 10 {
            proof {
                assert(acc * 10 + dv > usize::MAX) by (nonlinear_arith)
                    requires
                        acc > (usize::MAX - dv) / 10,
                        dv < 10,
                ;
                if all_digits(d) {
                    lemma_digits_value_prefix(d, i - start + 1);
                }
            }
            return None;
        }
        acc = acc * 10 + dv;
        i = i + 1;
    }
    assert(d.take(i - start) =~= d);
    Some(acc)
}


/// Whether `sep` occurs in `s` starting at index `i`.
pub open spec fn matches_at(s: Seq<char>, sep: Seq<char>, i: int) -> bool {
    0 <= i && i + sep.len() <= s.len() && s.subrange(i, i + sep.len()) == sep
}

/// The leftmost index at or after `from` where `sep` occurs in `s`, or
/// `s.len()` where there is none.
pub open spec fn first_match(s: Seq<char>, sep: Seq<char>, from: nat) -> nat
    decreases s.len() - from,
{
    if from >= s.len() || from + sep.len() > s.len() {
        s.len()
    } else if matches_at(s, sep, from as int) {
        from
    } else {
        first_match(s, sep, from + 1)
    }
}

pub proof fn lemma_first_match_bounds(s: Seq<char>, sep: Seq<char>, from: nat)
    ensures
        first_match(s, sep, from) == s.len() || (from <= first_match(s, sep, from)
            && matches_at(s, sep, first_match(s, sep, from) as int)),
        first_match(s, sep, from) <= s.len(),
    decreases s.len() - from,
{
    if from >= s.len() || from + sep.len() > s.len() {
    } else if matches_at(s, sep, from as int) {
    } else {
        lemma_first_match_bounds(s, sep, from + 1);
    }
}

/// The pieces of `s` between the non-overlapping occurrences of `sep`,
/// found from left to right, as `str::split` yields them.
pub open spec fn split(s: Seq<char>, sep: Seq<char>) -> Seq<Seq<char>>
    decreases s.len(),
{
    if sep.len() == 0 {
        seq![s]
    } else {
        let i = first_match(s, sep, 0);
        if i >= s.len() {
            seq![s]
        } else {
            proof {
                lemma_first_match_bounds(s, sep, 0);
            }
            seq![s.take(i as int)].add(split(s.skip((i + sep.len()) as int), sep))
        }
    }
}

/// `split` always yields at least one piece.
pub proof fn lemma_split_len(s: Seq<char>, sep: Seq<char>)
    ensures
        split(s, sep).len() >= 1,
    decreases s.len(),
{
    if sep.len() > 0 {
        let i = first_match(s, sep, 0);
        if i < s.len() {
            lemma_first_match_bounds(s, sep, 0);
            lemma_split_len(s.skip((i + sep.len()) as int), sep);
        }
    }
}

/// Whether `sep` occurs anywhere in `s`.
pub open spec fn contains_sep(s: Seq<char>, sep: Seq<char>) -> bool {
    exists|i: int| matches_at(s, sep, i)
}

pub proof fn lemma_first_match_none(s: Seq<char>, sep: Seq<char>, from: nat)
    requires
        forall|i: int| from <= i ==> !matches_at(s, sep, i),
    ensures
        first_match(s, sep, from) == s.len(),
    decreases s.len() - from,
{
    if !(from >= s.len() || from + sep.len() > s.len()) {
        lemma_first_match_none(s, sep, from + 1);
    }
}

pub proof fn lemma_first_match_at(s: Seq<char>, sep: Seq<char>, from: nat, t: nat)
    requires
        sep.len() > 0,
        from <= t,
        matches_at(s, sep, t as int),
        forall|i: int| from <= i < t ==> !matches_at(s, sep, i),
    ensures
        first_match(s, sep, from) == t,
    decreases t - from,
{
    if from < t {
        lemma_first_match_at(s, sep, from + 1, t);
    }
}

/// A text in which `sep` does not occur is a single piece.
pub proof fn lemma_split_whole(a: Seq<char>, sep: Seq<char>)
    requires
        !contains_sep(a, sep),
    ensures
        split(a, sep) == seq![a],
{
    if sep.len() > 0 {
        lemma_first_match_none(a, sep, 0);
    }
}

/// The first piece of `a + sep + b` is `a` when no occurrence of `sep`
/// starts inside `a`.
pub proof fn lemma_split_prefix(a: Seq<char>, sep: Seq<char>, b: Seq<char>)
    requires
        sep.len() > 0,
        forall|i: int| 0 <= i < a.len() ==> !matches_at(a + sep + b, sep, i),
    ensures
        split(a + sep + b, sep) == seq![a].add(split(b, sep)),
{
    let s = a + sep + b;
    assert(s.subrange(a.len() as int, (a.len() + sep.len()) as int) =~= sep);
    lemma_first_match_at(s, sep, 0, a.len());
    assert(s.take(a.len() as int) =~= a);
    assert(s.skip((a.len() + sep.len()) as int) =~= b);
}

/// For a one-character separator, a piece free of that character is split
/// off whole.
pub proof fn lemma_split_char_prefix(a: Seq<char>, c: char, b: Seq<char>)
    requires
        !a.contains(c),
    ensures
        split(a + seq![c] + b, seq![c]) == seq![a].add(split(b, seq![c])),
{
    let s = a + seq![c] + b;
    assert forall|i: int| 0 <= i < a.len() implies !matches_at(s, seq![c], i) by {
        if matches_at(s, seq![c], i) {
            assert(s.subrange(i, i + 1)[0] == c);
            assert(a[i] == c);
        }
    }
    lemma_split_prefix(a, seq![c], b);
}

/// For a one-character separator, a text free of that character is a
/// single piece.
pub proof fn lemma_split_char_whole(a: Seq<char>, c: char)
    requires
        !a.contains(c),
    ensures
        split(a, seq![c]) == seq![a],
{
    assert forall|i: int| !matches_at(a, seq![c], i) by {
        if matches_at(a, seq![c], i) {
            assert(a.subrange(i, i + 1)[0] == c);
            assert(a[i] == c);
        }
    }
    lemma_split_whole(a, seq![c]);
}

/// The pieces joined with `c` between each two of them.
pub open spec fn join(ps: Seq<Seq<char>>, c: char) -> Seq<char>
    decreases ps.len(),
{
    if ps.len() == 0 {
        Seq::empty()
    } else if ps.len() == 1 {
        ps[0]
    } else {
        join(ps.drop_last(), c).push(c) + ps.last()
    }
}

proof fn lemma_join_cons(a: Seq<char>, rest: Seq<Seq<char>>, c: char)
    requires
        rest.len() >= 1,
    ensures
        join(seq![a].add(rest), c) == a.push(c) + join(rest, c),
    decreases rest.len(),
{
    let ps = seq![a].add(rest);
    if rest.len() == 1 {
        assert(ps.drop_last() =~= seq![a]);
        assert(join(seq![a], c) == a);
        assert(ps.last() == rest[0]);
        assert(join(ps, c) =~= a.push(c) + join(rest, c));
    } else {
        lemma_join_cons(a, rest.drop_last(), c);
        assert(ps.drop_last() =~= seq![a].add(rest.drop_last()));
        assert(join(ps, c) =~= a.push(c) + join(rest, c));
    }
}

/// Joining the pieces of a one-character split with that character gives
/// the text back, and no piece holds the character.
pub proof fn lemma_split_char_join(s: Seq<char>, c: char)
    ensures
        join(split(s, seq![c]), c) == s,
        forall|i: int| 0 <= i < split(s, seq![c]).len() ==> !(#[trigger] split(s, seq![c])[i]).contains(c),
    decreases s.len(),
{
    let sep = seq![c];
    let i = first_match(s, sep, 0);
    lemma_first_match_bounds(s, sep, 0);
    lemma_split_len(s, sep);
    if i >= s.len() {
        assert forall|j: int| 0 <= j < s.len() implies s[j] != c by {
            if s[j] == c {
                assert(s.subrange(j, j + 1) =~= sep);
                lemma_first_match_first(s, sep, 0, j);
            }
        }
    } else {
        let rest = s.skip((i + 1) as int);
        lemma_split_char_join(rest, c);
        lemma_split_len(rest, sep);
        lemma_join_cons(s.take(i as int), split(rest, sep), c);
        assert(s.subrange(i as int, (i + 1) as int)[0] == c);
        assert(s =~= s.take(i as int).push(c) + rest);
        assert forall|j: int| 0 <= j < i implies s[j] != c by {
            if s[j] == c {
                assert(s.subrange(j, j + 1) =~= sep);
                lemma_first_match_first(s, sep, 0, j);
            }
        }
        assert(!s.take(i as int).contains(c));
        assert forall|k: int| 0 <= k < split(s, sep).len() implies !(#[trigger] split(s, sep)[k]).contains(c) by {
            if k > 0 {
                assert(split(s, sep)[k] == split(rest, sep)[k - 1]);
            }
        }
    }
}

pub proof fn lemma_first_match_first(s: Seq<char>, sep: Seq<char>, from: nat, j: int)
    requires
        sep.len() > 0,
        from <= j,
        matches_at(s, sep, j),
    ensures
        first_match(s, sep, from) <= j,
    decreases s.len() - from,
{
    if from < j && !matches_at(s, sep, from as int) {
        lemma_first_match_first(s, sep, from + 1, j);
    }
}

fn matches_at_exec(cs: &Vec<char>, sep: &Vec<char>, j: usize) -> (b: bool)
    requires
        j + sep.len() <= cs.len(),
    ensures
        b == matches_at(cs@, sep@, j as int),
{
    let mut t: usize = 0;
    while t < sep.len()
        invariant
            j + sep.len() <= cs.len(),
            t <= sep.len(),
            forall|u: int| 0 <= u < t ==> cs@[j + u] == sep@[u],
        decreases sep.len() - t,
    {
        if cs[j + t] != sep[t] {
            assert(cs@.subrange(j as int, j + sep.len())[t as int] != sep@[t as int]);
            return false;
        }
        t = t + 1;
    }
    assert(cs@.subrange(j as int, j + sep.len()) =~= sep@);
    true
}

/// Splits off the first piece of `s` at the leftmost occurrence of `sep`,
/// returning that piece and, where `sep` occurs, the text after it.
pub fn split_first<'a>(s: &'a str, sep: &str) -> (r: (&'a str, Option<&'a str>))
    requires
        sep@.len() > 0,
    ensures
        r.1 is None ==> split(s@, sep@) == seq![s@] && r.0@ == s@,
        r.1 matches Some(rest) ==> split(s@, sep@) == seq![r.0@].add(split(rest@, sep@)),
        split(s@, sep@)[0] == r.0@,
        r.1 is None ==> first_match(s@, sep@, 0) == s@.len(),
        r.1 matches Some(rest) ==> {
            let i = first_match(s@, sep@, 0);
            &&& i < s@.len()
            &&& r.0@ == s@.take(i as int)
            &&& rest@ == s@.skip((i + sep@.len()) as int)
        },
        r.1 is None <==> split(s@, sep@).len() == 1,
        r.1 matches Some(rest) ==> split(s@, sep@).len() == split(rest@, sep@).len() + 1,
        r.1 matches Some(rest) ==> forall|i: int|
            0 <= i < split(rest@, sep@).len() ==> split(s@, sep@)[i + 1] == #[trigger] split(
                rest@,
                sep@,
            )[i],
{
    let cs = chars_of(s);
    let sv = chars_of(sep);
    let n = cs.len();
    let k = sv.len();
    let mut j: usize = 0;
    while j < n && k <= n - j
        invariant
            cs@ == s@,
            sv@ == sep@,
            n == cs.len(),
            k == sv.len(),
            k > 0,
            j <= n,
            first_match(s@, sep@, 0) == first_match(s@, sep@, j as nat),
        decreases n + 1 - j,
    {
        if matches_at_exec(&cs, &sv, j) {
            proof {
                lemma_first_match_bounds(s@, sep@, 0);
            }
            let first = s.substring_char(0, j);
            let rest = s.substring_char(j + k, n);
            assert(first@ =~= s@.take(j as int));
            assert(rest@ =~= s@.skip(j + k));
            proof {
                lemma_split_len(rest@, sep@);
            }
            return (first, Some(rest));
        }
        j = j + 1;
    }
    proof {
        lemma_first_match_bounds(s@, sep@, 0);
    }
    (s, None)
}


/// Compares two strings character by character.
pub fn text_eq(a: &str, b: &str) -> (r: bool)
    ensures
        r == (a@ == b@),
{
    let av = chars_of(a);
    let bv = chars_of(b);
    if av.len() != bv.len() {
        return false;
    }
    let mut i: usize = 0;
    while i < av.len()
        invariant
            av@ == a@,
            bv@ == b@,
            av.len() == bv.len(),
            i <= av.len(),
            forall|j: int| 0 <= j < i ==> av@[j] == bv@[j],
        decreases av.len() - i,
    {
        if av[i] != bv[i] {
            return false;
        }
        i = i + 1;
    }
    assert(av@ =~= bv@);
    true
}

} // verus!
