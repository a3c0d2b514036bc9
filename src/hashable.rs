//! Serialization of a variable map into sorted `name=value` lines: raw for
//! hashing, and with every non-empty value replaced by its SHA-256 digest
//! for display.
use vstd::prelude::*;
use crate::env_map::EnvironmentVariableMap;
use crate::lex::{seq_lt, str_lt, lemma_lt_total, lemma_lt_transitive};

verus! {

/// The SHA-256 digest of the UTF-8 encoding of `text`, in lowercase hex.
pub uninterp spec fn sha256_hex_of(text: Seq<char>) -> Seq<char>;

pub open spec fn is_lower_hex_digit(c: char) -> bool {
    ('0' <= c && c <= '9') || ('a' <= c && c <= 'f')
}

/// Relies on `sha2::Sha256::digest` (a 32-byte digest) and the lowercase hex
/// formatting of its output array (two digits per byte).
#[verifier::external_body]
fn sha256_hex(text: &str) -> (r: String)
    ensures
        r@ == sha256_hex_of(text@),
        r@.len() == 64,
        forall|i: int| 0 <= i < r@.len() ==> is_lower_hex_digit(#[trigger] r@[i]),
{
    format!("{:x}", <sha2::Sha256 as sha2::Digest>::digest(text.as_bytes()))
}

/// The digest of `value` is 64 lowercase hex digits.
pub open spec fn digest_well_formed(value: Seq<char>) -> bool {
    sha256_hex_of(value).len() == 64 && forall|i: int|
        0 <= i < 64 ==> is_lower_hex_digit(#[trigger] sha256_hex_of(value)[i])
}

/// The line `name=value`.
pub open spec fn pair_line(name: Seq<char>, value: Seq<char>) -> Seq<char> {
    name + seq!['='] + value
}

/// The line for display: `name=` for an empty value, else `name=` followed
/// by the hex digest of the value.
pub open spec fn secret_pair_line(name: Seq<char>, value: Seq<char>) -> Seq<char> {
    if value.len() == 0 {
        name + seq!['=']
    } else {
        name + seq!['='] + sha256_hex_of(value)
    }
}

/// The line of one entry, raw or redacted.
pub open spec fn entry_line(e: (Seq<char>, Seq<char>), secret: bool) -> Seq<char> {
    if secret {
        secret_pair_line(e.0, e.1)
    } else {
        pair_line(e.0, e.1)
    }
}

/// The lines of all entries, in the order of the entries.
pub open spec fn entry_lines(p: Seq<(Seq<char>, Seq<char>)>, secret: bool) -> Seq<Seq<char>> {
    p.map_values(|e: (Seq<char>, Seq<char>)| entry_line(e, secret))
}

/// `x` put before the first element of `s` that does not sort before it.
pub open spec fn insert_sorted(x: Seq<char>, s: Seq<Seq<char>>) -> Seq<Seq<char>>
    decreases s.len(),
{
    if s.len() == 0 {
        seq![x]
    } else if seq_lt(s[0], x) {
        seq![s[0]] + insert_sorted(x, s.drop_first())
    } else {
        seq![x] + s
    }
}

/// `s` in lexicographic order (insertion sort).
pub open spec fn sort_seq(s: Seq<Seq<char>>) -> Seq<Seq<char>>
    decreases s.len(),
{
    if s.len() == 0 {
        s
    } else {
        insert_sorted(s.last(), sort_seq(s.drop_last()))
    }
}

/// No element sorts before an earlier one.
pub open spec fn is_sorted(s: Seq<Seq<char>>) -> bool {
    forall|i: int, j: int| 0 <= i < j < s.len() ==> !seq_lt(#[trigger] s[j], #[trigger] s[i])
}

/// The lines of `m`, raw or redacted, sorted as lines.
pub open spec fn sorted_lines(m: EnvironmentVariableMap, secret: bool) -> Seq<Seq<char>> {
    sort_seq(entry_lines(m.pairs(), secret))
}

proof fn lemma_insert_at(x: Seq<char>, s: Seq<Seq<char>>, j: int)
    requires
        0 <= j <= s.len(),
        forall|i: int| 0 <= i < j ==> seq_lt(#[trigger] s[i], x),
        j < s.len() ==> !seq_lt(s[j], x),
    ensures
        insert_sorted(x, s) == s.insert(j, x),
    decreases j,
{
    if j == 0 {
        assert(insert_sorted(x, s) =~= s.insert(0, x));
    } else {
        let t = s.drop_first();
        assert forall|i: int| 0 <= i < j - 1 implies seq_lt(#[trigger] t[i], x) by {
            assert(t[i] == s[i + 1]);
        }
        lemma_insert_at(x, t, j - 1);
        assert(seq_lt(s[0], x));
        assert(seq![s[0]] + t.insert(j - 1, x) =~= s.insert(j, x));
    }
}

proof fn lemma_insert_keeps_sorted(x: Seq<char>, s: Seq<Seq<char>>, j: int)
    requires
        is_sorted(s),
        0 <= j <= s.len(),
        forall|i: int| 0 <= i < j ==> seq_lt(#[trigger] s[i], x),
        j < s.len() ==> !seq_lt(s[j], x),
    ensures
        is_sorted(s.insert(j, x)),
{
    let r = s.insert(j, x);
    assert forall|a: int, b: int| 0 <= a < b < r.len() implies !seq_lt(#[trigger] r[b], #[trigger] r[a]) by {
        if b < j {
        } else if a > j {
            assert(r[a] == s[a - 1] && r[b] == s[b - 1]);
        } else if b == j {
            lemma_lt_total(s[a], x);
        } else if a == j {
            assert(r[b] == s[b - 1]);
            if seq_lt(s[b - 1], x) {
                lemma_lt_total(s[j], s[b - 1]);
                if b - 1 > j {
                    assert(!seq_lt(s[b - 1], s[j]));
                }
                if s[j] != s[b - 1] {
                    lemma_lt_transitive(s[j], s[b - 1], x);
                }
            }
        } else {
            assert(r[a] == s[a] && r[b] == s[b - 1]);
        }
    }
}

proof fn lemma_insert_sorted_members(x: Seq<char>, s: Seq<Seq<char>>, y: Seq<char>)
    ensures
        insert_sorted(x, s).contains(y) <==> (y == x || s.contains(y)),
    decreases s.len(),
{
    if s.len() > 0 {
        lemma_insert_sorted_members(x, s.drop_first(), y);
        let r = insert_sorted(x, s);
        if seq_lt(s[0], x) {
            let t = insert_sorted(x, s.drop_first());
            assert(r == seq![s[0]] + t);
            if t.contains(y) {
                let i = choose|i: int| 0 <= i < t.len() && t[i] == y;
                assert(r[i + 1] == y);
            }
            if r.contains(y) && y != s[0] {
                let i = choose|i: int| 0 <= i < r.len() && r[i] == y;
                assert(t[i - 1] == y);
            }
            if s.drop_first().contains(y) {
                let i = choose|i: int| 0 <= i < s.drop_first().len() && s.drop_first()[i] == y;
                assert(s[i + 1] == y);
            }
            if s.contains(y) && y != s[0] {
                let i = choose|i: int| 0 <= i < s.len() && s[i] == y;
                assert(s.drop_first()[i - 1] == y);
            }
            assert(r[0] == s[0]);
        } else {
            assert(r == seq![x] + s);
            if s.contains(y) {
                let i = choose|i: int| 0 <= i < s.len() && s[i] == y;
                assert(r[i + 1] == y);
            }
            if r.contains(y) && y != x {
                let i = choose|i: int| 0 <= i < r.len() && r[i] == y;
                assert(s[i - 1] == y);
            }
            assert(r[0] == x);
        }
    } else {
        assert(insert_sorted(x, s)[0] == x);
    }
}

/// Sorting keeps exactly the elements it is given.
pub proof fn lemma_sort_members(s: Seq<Seq<char>>, y: Seq<char>)
    ensures
        sort_seq(s).contains(y) <==> s.contains(y),
    decreases s.len(),
{
    if s.len() > 0 {
        lemma_sort_members(s.drop_last(), y);
        lemma_insert_sorted_members(s.last(), sort_seq(s.drop_last()), y);
        if s.contains(y) && y != s.last() {
            let i = choose|i: int| 0 <= i < s.len() && s[i] == y;
            assert(s.drop_last()[i] == y);
        }
        if s.drop_last().contains(y) {
            let i = choose|i: int| 0 <= i < s.drop_last().len() && s.drop_last()[i] == y;
            assert(s[i] == y);
        }
        assert(s[s.len() - 1] == s.last());
    }
}

/// Every serialized line is the line of an entry, and every entry has its
/// line among them.
pub proof fn lemma_lines_of_entries(m: EnvironmentVariableMap, secret: bool, y: Seq<char>)
    ensures
        sorted_lines(m, secret).contains(y) <==> exists|j: int|
            0 <= j < m.pairs().len() && y == entry_line(#[trigger] m.pairs()[j], secret),
{
    let lines = entry_lines(m.pairs(), secret);
    lemma_sort_members(lines, y);
    if lines.contains(y) {
        let i = choose|i: int| 0 <= i < lines.len() && lines[i] == y;
        assert(y == entry_line(m.pairs()[i], secret));
    }
    if exists|j: int| 0 <= j < m.pairs().len() && y == entry_line(#[trigger] m.pairs()[j], secret) {
        let j = choose|j: int| 0 <= j < m.pairs().len() && y == entry_line(#[trigger] m.pairs()[j], secret);
        assert(lines[j] == y);
    }
}

/// Sorts strings lexicographically.
fn sort_strings(v: &Vec<String>) -> (r: Vec<String>)
    ensures
        r@.map_values(|s: String| s@) == sort_seq(v@.map_values(|s: String| s@)),
        is_sorted(r@.map_values(|s: String| s@)),
{
    let ghost src = v@.map_values(|s: String| s@);
    let mut r: Vec<String> = Vec::new();
    let mut i: usize = 0;
    assert(src.take(0) =~= Seq::<Seq<char>>::empty());
    while i < v.len()
        invariant
            i <= v@.len(),
            src == v@.map_values(|s: String| s@),
            r@.map_values(|s: String| s@) == sort_seq(src.take(i as int)),
            is_sorted(r@.map_values(|s: String| s@)),
        decreases v@.len() - i,
    {
        let x = v[i].clone();
        let ghost before = r@.map_values(|s: String| s@);
        let mut j: usize = 0;
        while j < r.len() && str_lt(r[j].as_str(), x.as_str())
            invariant
                j <= r@.len(),
                before == r@.map_values(|s: String| s@),
                forall|k: int| 0 <= k < j ==> seq_lt(#[trigger] before[k], x@),
            decreases r@.len() - j,
        {
            j = j + 1;
        }
        proof {
            lemma_insert_at(x@, before, j as int);
            lemma_insert_keeps_sorted(x@, before, j as int);
            assert(src.take(i + 1).drop_last() =~= src.take(i as int));
            assert(src.take(i + 1).last() == x@);
        }
        r.insert(j, x);
        assert(r@.map_values(|s: String| s@) =~= before.insert(j as int, v@[i as int]@));
        i = i + 1;
    }
    assert(src.take(i as int) =~= src);
    r
}

impl EnvironmentVariableMap {
    /// The `name=value` lines of all entries, raw or redacted, sorted as
    /// lines (not by name).
    fn map_to_pair(&self, secret: bool) -> (r: Vec<String>)
        requires
            self.wf(),
        ensures
            r@.map_values(|s: String| s@) == sorted_lines(*self, secret),
            is_sorted(r@.map_values(|s: String| s@)),
            forall|k: int| 0 <= k < self.pairs().len() && secret && #[trigger] self.pairs()[k].1.len() > 0 ==> digest_well_formed(self.pairs()[k].1),
    {
        let n = self.len();
        let mut lines: Vec<String> = Vec::new();
        let mut i: usize = 0;
        while i < n
            invariant
                n == self.pairs().len(),
                i <= n,
                lines@.len() == i,
                forall|k: int| 0 <= k < i ==> (#[trigger] lines@[k])@ == entry_line(self.pairs()[k], secret),
                forall|k: int| 0 <= k < i && secret && #[trigger] self.pairs()[k].1.len() > 0 ==> digest_well_formed(self.pairs()[k].1),
            decreases n - i,
        {
            let (name, value) = self.entry_at(i);
            let mut line = name.clone();
            line.append("=");
            if secret {
                if value.unicode_len() > 0 {
                    let digest = sha256_hex(value.as_str());
                    line.append(digest.as_str());
                }
            } else {
                line.append(value.as_str());
            }
            proof {
                reveal_strlit("=");
            }
            assert(line@ =~= entry_line(self.pairs()[i as int], secret));
            lines.push(line);
            i = i + 1;
        }
        assert(lines@.map_values(|s: String| s@) =~= entry_lines(self.pairs(), secret));
        sort_strings(&lines)
    }

    /// The sorted `name=value` lines with raw values: the input to hashing.
    pub fn to_hashable(&self) -> (r: Vec<String>)
        requires
            self.wf(),
        ensures
            r@.map_values(|s: String| s@) == sorted_lines(*self, false),
            is_sorted(r@.map_values(|s: String| s@)),
    {
        self.map_to_pair(false)
    }

    /// The sorted lines for display: each non-empty value replaced by the hex
    /// SHA-256 digest of its bytes, an empty one left empty.
    pub fn to_secret_hashable(&self) -> (r: Vec<String>)
        requires
            self.wf(),
        ensures
            r@.map_values(|s: String| s@) == sorted_lines(*self, true),
            is_sorted(r@.map_values(|s: String| s@)),
            forall|k: int| 0 <= k < self.pairs().len() && #[trigger] self.pairs()[k].1.len() > 0 ==> digest_well_formed(self.pairs()[k].1),
    {
        self.map_to_pair(true)
    }
}

/// Serializing is deterministic: two maps with the same content, however
/// they were built, give the same sorted lines, raw and redacted.
pub proof fn lemma_serialization_deterministic(m1: EnvironmentVariableMap, m2: EnvironmentVariableMap)
    requires
        m1.wf(),
        m2.wf(),
        m1@ == m2@,
    ensures
        sorted_lines(m1, false) == sorted_lines(m2, false),
        sorted_lines(m1, true) == sorted_lines(m2, true),
{
    m1.lemma_same_content_same_pairs(&m2);
}

/// `v` occurs somewhere in `line` as a contiguous run.
pub open spec fn occurs_in(v: Seq<char>, line: Seq<char>) -> bool {
    exists|j: int| 0 <= j && j + v.len() <= line.len() && #[trigger] line.subrange(j, j + v.len()) == v
}

proof fn lemma_secret_line_hides(name: Seq<char>, value: Seq<char>, v: Seq<char>, t: int)
    requires
        value.len() > 0 ==> digest_well_formed(value),
        0 <= t < v.len(),
        v[t] != '=',
        !is_lower_hex_digit(v[t]),
        forall|i: int| 0 <= i < name.len() ==> name[i] != v[t],
    ensures
        !occurs_in(v, secret_pair_line(name, value)),
{
    let line = secret_pair_line(name, value);
    if occurs_in(v, line) {
        let j = choose|j: int| 0 <= j && j + v.len() <= line.len() && #[trigger] line.subrange(j, j + v.len()) == v;
        assert(line.subrange(j, j + v.len())[t] == line[j + t]);
        let x = j + t;
        if x < name.len() {
            assert(line[x] == name[x]);
        } else if x == name.len() {
            assert(line[x] == '=');
        } else {
            assert(line[x] == sha256_hex_of(value)[x - name.len() - 1]);
        }
    }
}

/// Redaction hides values: when every digest used is well formed, a
/// non-empty `v` with a character that is neither `=`, nor a lowercase hex
/// digit, nor in any name of `m` occurs in no redacted line of `m`.
pub proof fn lemma_redacted_lines_hide_value(m: EnvironmentVariableMap, v: Seq<char>, t: int)
    requires
        forall|k: int| 0 <= k < m.pairs().len() && #[trigger] m.pairs()[k].1.len() > 0
            ==> digest_well_formed(m.pairs()[k].1),
        0 <= t < v.len(),
        v[t] != '=',
        !is_lower_hex_digit(v[t]),
        forall|k: int, i: int| 0 <= k < m.pairs().len() && 0 <= i < m.pairs()[k].0.len()
            ==> #[trigger] m.pairs()[k].0[i] != v[t],
    ensures
        forall|y: Seq<char>| #[trigger] sorted_lines(m, true).contains(y) ==> !occurs_in(v, y),
{
    assert forall|y: Seq<char>| #[trigger] sorted_lines(m, true).contains(y) implies !occurs_in(v, y) by {
        lemma_lines_of_entries(m, true, y);
        let j = choose|j: int| 0 <= j < m.pairs().len() && y == entry_line(#[trigger] m.pairs()[j], true);
        let e = m.pairs()[j];
        assert forall|i: int| 0 <= i < e.0.len() implies e.0[i] != v[t] by {
            assert(m.pairs()[j].0[i] != v[t]);
        }
        lemma_secret_line_hides(e.0, e.1, v, t);
    }
}

} // verus!
