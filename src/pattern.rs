//! The wildcard pattern dialect and its compilation to a regular-expression
//! fragment: `*` matches any run of characters, `\*` is a literal asterisk,
//! every other character stands for itself.
use vstd::prelude::*;

verus! {

/// One piece of a compiled pattern.
pub enum GlobSegment {
    /// Matches exactly these characters.
    Literal(Seq<char>),
    /// Matches any run of characters, the empty run included.
    AnyRun,
}

/// The characters that `regex::escape` prefixes with a backslash.
pub open spec fn is_regex_meta(c: char) -> bool {
    c == '\\' || c == '.' || c == '+' || c == '*' || c == '?' || c == '(' || c == ')' || c == '|'
        || c == '[' || c == ']' || c == '{' || c == '}' || c == '^' || c == '$' || c == '#' || c
        == '&' || c == '-' || c == '~'
}

/// `text` with a backslash put before each regex meta character.
pub open spec fn regex_escaped(text: Seq<char>) -> Seq<char>
    decreases text.len(),
{
    if text.len() == 0 {
        Seq::empty()
    } else {
        let head = if is_regex_meta(text[0]) {
            seq!['\\', text[0]]
        } else {
            seq![text[0]]
        };
        head + regex_escaped(text.drop_first())
    }
}

/// Relies on `regex::escape`: each meta character gets a backslash before it,
/// every other character is copied.
#[verifier::external_body]
fn escape(text: &str) -> (r: String)
    ensures
        r@ == regex_escaped(text@),
{
    regex::escape(text)
}

/// The segments of the rest `p` of a pattern, where `run` holds the literal
/// characters read since the last wildcard and `emitted` tells whether a
/// wildcard has been emitted before. A `*` right after an emitted wildcard,
/// with no literal between them, adds nothing.
pub open spec fn segments_from(p: Seq<char>, run: Seq<char>, emitted: bool) -> Seq<GlobSegment>
    decreases p.len(),
{
    if p.len() == 0 {
        seq![GlobSegment::Literal(run)]
    } else if p.len() >= 2 && p[0] == '\\' && p[1] == '*' {
        segments_from(p.skip(2), run.push('*'), emitted)
    } else if p[0] == '*' {
        if run.len() == 0 && emitted {
            segments_from(p.skip(1), run, true)
        } else {
            seq![GlobSegment::Literal(run), GlobSegment::AnyRun] + segments_from(
                p.skip(1),
                Seq::empty(),
                true,
            )
        }
    } else {
        segments_from(p.skip(1), run.push(p[0]), emitted)
    }
}

/// The segments that a wildcard pattern compiles to.
pub open spec fn pattern_segments(p: Seq<char>) -> Seq<GlobSegment> {
    segments_from(p, Seq::empty(), false)
}

/// `(?s:.*)`: any run of characters, newlines included (the `s` flag lets
/// `.` match a newline too).
pub open spec fn any_run_regex() -> Seq<char> {
    seq!['(', '?', 's', ':', '.', '*', ')']
}

/// The regex text of one segment.
pub open spec fn segment_regex(s: GlobSegment) -> Seq<char> {
    match s {
        GlobSegment::Literal(l) => regex_escaped(l),
        GlobSegment::AnyRun => any_run_regex(),
    }
}

/// The regex text of a sequence of segments: their texts concatenated.
pub open spec fn segments_regex(s: Seq<GlobSegment>) -> Seq<char>
    decreases s.len(),
{
    if s.len() == 0 {
        Seq::empty()
    } else {
        segment_regex(s[0]) + segments_regex(s.drop_first())
    }
}

/// The regex fragment that a wildcard pattern compiles to.
pub open spec fn pattern_regex(p: Seq<char>) -> Seq<char> {
    segments_regex(pattern_segments(p))
}

/// Whether `name` as a whole is covered by the segments, in order: a literal
/// by exactly its characters, a wildcard by any run of characters.
pub open spec fn segments_match(s: Seq<GlobSegment>, name: Seq<char>) -> bool
    decreases s.len(),
{
    if s.len() == 0 {
        name.len() == 0
    } else {
        match s[0] {
            GlobSegment::Literal(l) => l.len() <= name.len() && name.take(l.len() as int) == l
                && segments_match(s.drop_first(), name.skip(l.len() as int)),
            GlobSegment::AnyRun => exists|k: int|
                0 <= k <= name.len() && segments_match(s.drop_first(), #[trigger] name.skip(k)),
        }
    }
}

/// The intended meaning of pattern `p`: whether its segments, read as
/// literal runs and wildcards, cover `name` in full.
pub open spec fn pattern_matches(p: Seq<char>, name: Seq<char>) -> bool {
    segments_match(pattern_segments(p), name)
}

proof fn lemma_segments_regex_prepend(a: Seq<GlobSegment>, b: Seq<GlobSegment>)
    ensures
        segments_regex(a + b) == segments_regex(a) + segments_regex(b),
    decreases a.len(),
{
    if a.len() == 0 {
        assert(a + b =~= b);
    } else {
        lemma_segments_regex_prepend(a.drop_first(), b);
        assert((a + b).drop_first() =~= a.drop_first() + b);
    }
}

/// Compiles a wildcard pattern into a regex fragment: runs of literal
/// characters are escaped, and each wildcard not directly after another
/// becomes `(?s:.*)`, which matches any run of characters, newlines
/// included.
pub fn wildcard_to_regex_pattern(pattern: &str) -> (r: String)
    ensures
        r@ == pattern_regex(pattern@),
{
    let ghost p = pattern@;
    let n = pattern.unicode_len();
    let mut out = String::new();
    let mut run = String::new();
    let mut emitted = false;
    let mut i: usize = 0;
    proof {
        assert(p.skip(0) =~= p);
        assert(out@ + segments_regex(segments_from(p.skip(0), run@, emitted)) =~= pattern_regex(
            p,
        ));
    }
    while i < n
        invariant
            n == p.len(),
            p == pattern@,
            i <= n,
            out@ + segments_regex(segments_from(p.skip(i as int), run@, emitted)) == pattern_regex(
                p,
            ),
        decreases n - i,
    {
        let ghost rest = p.skip(i as int);
        let ghost run0 = run@;
        let ghost out0 = out@;
        let c = pattern.get_char(i);
        assert(rest[0] == c);
        if c == '\\' && i + 1 < n && pattern.get_char(i + 1) == '*' {
            run.append("*");
            proof {
                reveal_strlit("*");
                assert(rest[1] == '*');
                assert(rest.skip(2) =~= p.skip(i + 2));
                assert(run@ =~= run0.push('*'));
                assert(segments_from(rest, run0, emitted) == segments_from(
                    rest.skip(2),
                    run0.push('*'),
                    emitted,
                ));
            }
            i = i + 2;
        } else if c == '*' {
            proof {
                assert(rest.skip(1) =~= p.skip(i + 1));
            }
            if run.unicode_len() == 0 && emitted {
            } else {
                let ghost tail = segments_from(p.skip(i + 1), Seq::empty(), true);
                let lit = escape(run.as_str());
                out.append(lit.as_str());
                out.append("(?s:.*)");
                proof {
                    reveal_strlit("(?s:.*)");
                    let two = seq![GlobSegment::Literal(run0), GlobSegment::AnyRun];
                    assert(segments_from(rest, run0, emitted) == two + tail);
                    lemma_segments_regex_prepend(two, tail);
                    let last = two.drop_first();
                    assert(last.drop_first() =~= Seq::<GlobSegment>::empty());
                    assert(last[0] == GlobSegment::AnyRun);
                    assert(segments_regex(last.drop_first()) == Seq::<char>::empty());
                    assert(segments_regex(last) == any_run_regex() + Seq::<char>::empty());
                    assert(segments_regex(last) =~= any_run_regex());
                    assert(segments_regex(two) =~= regex_escaped(run0) + any_run_regex());
                    assert(out@ =~= out0 + regex_escaped(run0) + any_run_regex());
                }
                run = String::new();
                emitted = true;
            }
            i = i + 1;
        } else {
            let one = pattern.substring_char(i, i + 1);
            run.append(one);
            proof {
                assert(one@ =~= seq![c]);
                assert(run@ =~= run0.push(c));
                assert(rest.skip(1) =~= p.skip(i + 1));
                assert(!(rest.len() >= 2 && rest[0] == '\\' && rest[1] == '*'));
            }
            i = i + 1;
        }
    }
    let lit = escape(run.as_str());
    out.append(lit.as_str());
    proof {
        assert(p.skip(n as int) =~= Seq::<char>::empty());
        let one = seq![GlobSegment::Literal(run@)];
        assert(one.drop_first() =~= Seq::<GlobSegment>::empty());
        assert(one[0] == GlobSegment::Literal(run@));
        assert(segments_regex(one.drop_first()) == Seq::<char>::empty());
        assert(segments_regex(one) == regex_escaped(run@) + Seq::<char>::empty());
        assert(segments_regex(one) =~= regex_escaped(run@));
    }
    out
}

/// No character of `p` is `*`.
pub open spec fn has_no_star(p: Seq<char>) -> bool {
    forall|i: int| 0 <= i < p.len() ==> p[i] != '*'
}

proof fn lemma_no_star_segments(p: Seq<char>, run: Seq<char>, emitted: bool)
    requires
        has_no_star(p),
    ensures
        segments_from(p, run, emitted) == seq![GlobSegment::Literal(run + p)],
    decreases p.len(),
{
    if p.len() == 0 {
        assert(run + p =~= run);
    } else {
        assert(p[0] != '*');
        if p.len() >= 2 {
            assert(p[1] != '*');
        }
        lemma_no_star_segments(p.skip(1), run.push(p[0]), emitted);
        assert(run.push(p[0]) + p.skip(1) =~= run + p);
    }
}

proof fn lemma_literal_match(l: Seq<char>, name: Seq<char>)
    ensures
        segments_match(seq![GlobSegment::Literal(l)], name) <==> name == l,
{
    let s = seq![GlobSegment::Literal(l)];
    assert(s[0] == GlobSegment::Literal(l));
    assert(s.drop_first() =~= Seq::<GlobSegment>::empty());
    if name == l {
        assert(name.take(l.len() as int) =~= l);
        assert(name.skip(l.len() as int) =~= Seq::<char>::empty());
        assert(segments_match(s.drop_first(), name.skip(l.len() as int)));
    }
    if segments_match(s, name) {
        let rest = name.skip(l.len() as int);
        assert(segments_match(s.drop_first(), rest));
        assert(segments_match(Seq::<GlobSegment>::empty(), rest) == (rest.len() == 0));
        assert(rest.len() == 0);
        assert(name =~= name.take(l.len() as int));
    }
}

/// A pattern without `*` matches exactly itself.
pub proof fn lemma_literal_pattern(p: Seq<char>, name: Seq<char>)
    requires
        has_no_star(p),
    ensures
        pattern_matches(p, name) <==> name == p,
{
    lemma_no_star_segments(p, Seq::empty(), false);
    assert(Seq::<char>::empty() + p =~= p);
    lemma_literal_match(p, name);
}

proof fn lemma_any_match(t: Seq<GlobSegment>, name: Seq<char>, k: int)
    requires
        t.len() > 0,
        t[0] is AnyRun,
        0 <= k <= name.len(),
        segments_match(t.drop_first(), name.skip(k)),
    ensures
        segments_match(t, name),
{
    assert(t[0] == GlobSegment::AnyRun);
}

/// The pattern `*` matches every name, the empty one included.
pub proof fn lemma_star_matches_all(name: Seq<char>)
    ensures
        pattern_matches(seq!['*'], name),
{
    let p = seq!['*'];
    let e = Seq::<char>::empty();
    assert(p.skip(1) =~= e);
    let u = seq![GlobSegment::Literal(e)];
    assert(segments_from(e, e, true) == u);
    let s = pattern_segments(p);
    assert(s == seq![GlobSegment::Literal(e), GlobSegment::AnyRun] + u);
    let t = s.drop_first();
    assert(t =~= seq![GlobSegment::AnyRun, GlobSegment::Literal(e)]);
    assert(t.drop_first() =~= u);
    let rest = name.skip(name.len() as int);
    assert(rest =~= e);
    lemma_literal_match(e, rest);
    assert(segments_match(u, rest));
    assert(segments_match(t.drop_first(), name.skip(name.len() as int)));
    assert(t[0] == GlobSegment::AnyRun);
    lemma_any_match(t, name, name.len() as int);
    assert(s[0] == GlobSegment::Literal(e));
    assert(name.take(0) =~= e);
    assert(name.skip(0) =~= name);
}

/// The pattern `A\*B` matches the name `A*B` and no other.
pub proof fn lemma_escaped_star_is_literal(name: Seq<char>)
    ensures
        pattern_matches(seq!['A', '\\', '*', 'B'], name) <==> name == seq!['A', '*', 'B'],
{
    let p = seq!['A', '\\', '*', 'B'];
    let e = Seq::<char>::empty();
    let p1 = p.skip(1);
    let p3 = p1.skip(2);
    assert(p1 =~= seq!['\\', '*', 'B']);
    assert(p3 =~= seq!['B']);
    assert(p3.skip(1) =~= e);
    let lit = seq!['A', '*', 'B'];
    assert(e.push('A').push('*').push('B') =~= lit);
    assert(segments_from(p3.skip(1), lit, false) == seq![GlobSegment::Literal(lit)]);
    assert(segments_from(p3, e.push('A').push('*'), false) == seq![GlobSegment::Literal(lit)]);
    assert(segments_from(p1, e.push('A'), false) == seq![GlobSegment::Literal(lit)]);
    assert(pattern_segments(p) == seq![GlobSegment::Literal(lit)]);
    lemma_literal_match(lit, name);
}

proof fn lemma_segments_start_literal(p: Seq<char>, run: Seq<char>, emitted: bool)
    ensures
        segments_from(p, run, emitted).len() > 0,
        segments_from(p, run, emitted)[0] is Literal,
        forall|i: int|
            0 <= i < segments_from(p, run, emitted).len() - 1 ==> !((
            #[trigger] segments_from(p, run, emitted)[i]) is AnyRun && segments_from(
                p,
                run,
                emitted,
            )[i + 1] is AnyRun),
    decreases p.len(),
{
    if p.len() == 0 {
    } else if p.len() >= 2 && p[0] == '\\' && p[1] == '*' {
        lemma_segments_start_literal(p.skip(2), run.push('*'), emitted);
    } else if p[0] == '*' {
        if run.len() == 0 && emitted {
            lemma_segments_start_literal(p.skip(1), run, true);
        } else {
            lemma_segments_start_literal(p.skip(1), Seq::empty(), true);
            let t = segments_from(p.skip(1), Seq::empty(), true);
            let s = seq![GlobSegment::Literal(run), GlobSegment::AnyRun] + t;
            assert forall|i: int| 0 <= i < s.len() - 1 implies !((#[trigger] s[i]) is AnyRun
                && s[i + 1] is AnyRun) by {
                if i >= 2 {
                    assert(s[i] == t[i - 2] && s[i + 1] == t[i - 1]);
                }
            }
        }
    } else {
        lemma_segments_start_literal(p.skip(1), run.push(p[0]), emitted);
    }
}

/// Two wildcard segments never stand next to each other in a compiled
/// pattern.
pub proof fn lemma_no_adjacent_wildcards(p: Seq<char>)
    ensures
        forall|i: int|
            0 <= i < pattern_segments(p).len() - 1 ==> !((#[trigger] pattern_segments(p)[i]) is AnyRun
                && pattern_segments(p)[i + 1] is AnyRun),
{
    lemma_segments_start_literal(p, Seq::empty(), false);
}

proof fn lemma_literal_then(t: Seq<GlobSegment>, name: Seq<char>, l: Seq<char>)
    requires
        t.len() > 0,
        t[0] == GlobSegment::Literal(l),
        l.len() <= name.len(),
        name.take(l.len() as int) == l,
        segments_match(t.drop_first(), name.skip(l.len() as int)),
    ensures
        segments_match(t, name),
{
}

/// The segments of `A*B*C`.
proof fn lemma_a_b_c_segments()
    ensures
        pattern_segments(seq!['A', '*', 'B', '*', 'C']) == seq![
            GlobSegment::Literal(seq!['A']),
            GlobSegment::AnyRun,
            GlobSegment::Literal(seq!['B']),
            GlobSegment::AnyRun,
            GlobSegment::Literal(seq!['C']),
        ],
{
    let p = seq!['A', '*', 'B', '*', 'C'];
    let e = Seq::<char>::empty();
    let p1 = p.skip(1);
    let p2 = p1.skip(1);
    let p3 = p2.skip(1);
    let p4 = p3.skip(1);
    let p5 = p4.skip(1);
    assert(p1 =~= seq!['*', 'B', '*', 'C']);
    assert(p2 =~= seq!['B', '*', 'C']);
    assert(p3 =~= seq!['*', 'C']);
    assert(p4 =~= seq!['C']);
    assert(p5 =~= e);
    assert(e.push('A') =~= seq!['A']);
    assert(e.push('B') =~= seq!['B']);
    assert(e.push('C') =~= seq!['C']);
    let tail = seq![GlobSegment::Literal(seq!['C'])];
    assert(segments_from(p5, seq!['C'], true) == tail);
    assert(segments_from(p4, e, true) == segments_from(p5, e.push('C'), true));
    assert(segments_from(p4, e, true) == tail);
    let mid = seq![GlobSegment::Literal(seq!['B']), GlobSegment::AnyRun] + tail;
    assert(segments_from(p3, seq!['B'], true) == mid);
    assert(segments_from(p2, e, true) == segments_from(p3, e.push('B'), true));
    assert(segments_from(p2, e, true) == mid);
    let all = seq![GlobSegment::Literal(seq!['A']), GlobSegment::AnyRun] + mid;
    assert(segments_from(p1, seq!['A'], false) == all);
    assert(segments_from(p, e, false) == segments_from(p1, e.push('A'), false));
    assert(segments_from(p, e, false) == all);
    assert(all =~= seq![
        GlobSegment::Literal(seq!['A']),
        GlobSegment::AnyRun,
        GlobSegment::Literal(seq!['B']),
        GlobSegment::AnyRun,
        GlobSegment::Literal(seq!['C']),
    ]);
}

/// `A*B*C` matches `A`, any run, `B`, any run, `C`.
pub proof fn lemma_a_b_c_matches(x: Seq<char>, y: Seq<char>)
    ensures
        pattern_matches(seq!['A', '*', 'B', '*', 'C'], seq!['A'] + x + seq!['B'] + y + seq!['C']),
{
    lemma_a_b_c_segments();
    let s0 = pattern_segments(seq!['A', '*', 'B', '*', 'C']);
    let s1 = s0.drop_first();
    let s2 = s1.drop_first();
    let s3 = s2.drop_first();
    let s4 = s3.drop_first();
    assert(s4 =~= seq![GlobSegment::Literal(seq!['C'])]);
    let n0 = seq!['A'] + x + seq!['B'] + y + seq!['C'];
    let n1 = n0.skip(1);
    let n2 = n1.skip(x.len() as int);
    let n3 = n2.skip(1);
    let n4 = n3.skip(y.len() as int);
    assert(n1 =~= x + seq!['B'] + y + seq!['C']);
    assert(n2 =~= seq!['B'] + y + seq!['C']);
    assert(n3 =~= y + seq!['C']);
    assert(n4 =~= seq!['C']);
    lemma_literal_match(seq!['C'], n4);
    lemma_any_match(s3, n3, y.len() as int);
    assert(n2.take(1) =~= seq!['B']);
    lemma_literal_then(s2, n2, seq!['B']);
    lemma_any_match(s1, n1, x.len() as int);
    assert(n0.take(1) =~= seq!['A']);
    lemma_literal_then(s0, n0, seq!['A']);
}

/// `A*B*C` does not match `AXC`, where the literal `B` is missing.
pub proof fn lemma_a_b_c_needs_b()
    ensures
        !pattern_matches(seq!['A', '*', 'B', '*', 'C'], seq!['A', 'X', 'C']),
{
    lemma_a_b_c_segments();
    let s0 = pattern_segments(seq!['A', '*', 'B', '*', 'C']);
    let s1 = s0.drop_first();
    let s2 = s1.drop_first();
    let n0 = seq!['A', 'X', 'C'];
    let n1 = n0.skip(1);
    assert(n1 =~= seq!['X', 'C']);
    assert(s2[0] == GlobSegment::Literal(seq!['B']));
    assert forall|k: int| 0 <= k <= n1.len() implies !segments_match(s2, #[trigger] n1.skip(k)) by {
        let w = n1.skip(k);
        if w.len() >= 1 {
            assert(w.take(1)[0] == w[0]);
            assert(w[0] == n1[k]);
        }
    }
    assert(s1[0] == GlobSegment::AnyRun);
    assert(!segments_match(s1, n1));
}

} // verus!
