//! A parser for a small line-oriented template language.
//!
//! Each line of a template has the form `<path>:<value>`: the text after the
//! *last* `:` on the line is the value, and the text before it is a
//! `/`-separated path. A template is a sequence of such lines.

use vstd::prelude::*;

verus! {

/// True when the character `c` occurs somewhere in `s`.
pub open spec fn contains_char(s: Seq<char>, c: char) -> bool {
    exists|i: int| 0 <= i < s.len() && s[i] == c
}

/// Index of the first occurrence of `c` in `s`, or -1 when `c` does not occur.
pub open spec fn first_index_of(s: Seq<char>, c: char) -> int
    decreases s.len(),
{
    if s.len() == 0 {
        -1
    } else if s[0] == c {
        0
    } else {
        let r: int = first_index_of(s.drop_first(), c);
        if r < 0 {
            -1
        } else {
            r + 1
        }
    }
}

/// Index of the last occurrence of `c` in `s`, or -1 when `c` does not occur.
pub open spec fn last_index_of(s: Seq<char>, c: char) -> int
    decreases s.len(),
{
    if s.len() == 0 {
        -1
    } else if s[s.len() - 1] == c {
        s.len() - 1
    } else {
        last_index_of(s.drop_last(), c)
    }
}

/// `first_index_of` finds an occurrence exactly when one exists, and no
/// occurrence precedes the one it finds.
pub proof fn lemma_first_index_of(s: Seq<char>, c: char)
    ensures
        first_index_of(s, c) >= 0 <==> contains_char(s, c),
        first_index_of(s, c) >= 0 ==> first_index_of(s, c) < s.len() && s[first_index_of(s, c)]
            == c,
        forall|j: int| 0 <= j < first_index_of(s, c) ==> s[j] != c,
    decreases s.len(),
{
    if s.len() == 0 {
    } else if s[0] == c {
    } else {
        let rest = s.drop_first();
        lemma_first_index_of(rest, c);
        assert(forall|j: int| 1 <= j < s.len() ==> s[j] == rest[j - 1]);
        if first_index_of(rest, c) >= 0 {
            assert(contains_char(s, c)) by {
                let w: int = first_index_of(rest, c);
                assert(s[w + 1] == rest[w]);
            }
        } else {
            assert(!contains_char(s, c)) by {
                assert(forall|i: int| 0 <= i < s.len() ==> s[i] != c);
            }
        }
    }
}

/// `last_index_of` finds an occurrence exactly when one exists, and no
/// occurrence follows the one it finds.
pub proof fn lemma_last_index_of(s: Seq<char>, c: char)
    ensures
        last_index_of(s, c) >= 0 <==> contains_char(s, c),
        -1 <= last_index_of(s, c) < s.len(),
        last_index_of(s, c) >= 0 ==> s[last_index_of(s, c)] == c,
        forall|j: int| last_index_of(s, c) < j < s.len() ==> s[j] != c,
    decreases s.len(),
{
    if s.len() == 0 {
    } else if s[s.len() - 1] == c {
    } else {
        let rest = s.drop_last();
        lemma_last_index_of(rest, c);
        assert(last_index_of(s, c) == last_index_of(rest, c));
        assert(forall|j: int| 0 <= j < s.len() - 1 ==> s[j] == rest[j]);
        if last_index_of(rest, c) >= 0 {
            assert(contains_char(s, c)) by {
                let w: int = last_index_of(rest, c);
                assert(s[w] == rest[w]);
            }
            assert forall|j: int| last_index_of(s, c) < j < s.len() implies s[j] != c by {
                if j < s.len() - 1 {
                    assert(s[j] == rest[j]);
                }
            }
        } else {
            assert forall|i: int| 0 <= i < s.len() implies s[i] != c by {
                if i < s.len() - 1 {
                    assert(s[i] == rest[i]);
                    if rest[i] == c {
                        assert(contains_char(rest, c));
                    }
                }
            }
            assert(!contains_char(s, c));
        }
    }
}

/// Splitting `s` on every occurrence of `c`, keeping empty pieces: splitting
/// the empty string yields one empty piece, and each separator ends a piece.
pub open spec fn split_on(s: Seq<char>, c: char) -> Seq<Seq<char>>
    decreases s.len(),
    via split_on_decreases
{
    let i: int = first_index_of(s, c);
    if i < 0 {
        seq![s]
    } else {
        seq![s.subrange(0, i)] + split_on(s.subrange(i + 1, s.len() as int), c)
    }
}

#[via_fn]
proof fn split_on_decreases(s: Seq<char>, c: char) {
    lemma_first_index_of(s, c);
}

/// A line as `str::lines` reports it: the text up to the line break, with a
/// `\r` that immediately precedes the break removed.
pub open spec fn line_text(raw: Seq<char>) -> Seq<char> {
    if raw.len() > 0 && raw.last() == '\r' {
        raw.drop_last()
    } else {
        raw
    }
}

/// The lines of `s`, split on `\n` with `str::lines` semantics: a `\r` just
/// before a `\n` is not part of the line, a final line break produces no
/// empty last line, and the empty string has no lines.
pub open spec fn lines_of(s: Seq<char>) -> Seq<Seq<char>>
    decreases s.len(),
    via lines_of_decreases
{
    if s.len() == 0 {
        Seq::empty()
    } else {
        let i: int = first_index_of(s, '\n');
        if i < 0 {
            seq![s]
        } else {
            seq![line_text(s.subrange(0, i))] + lines_of(s.subrange(i + 1, s.len() as int))
        }
    }
}

#[via_fn]
proof fn lines_of_decreases(s: Seq<char>) {
    lemma_first_index_of(s, '\n');
}

/// Splitting never yields an empty sequence of pieces, so a record's path
/// always has at least one segment.
pub proof fn lemma_split_on_nonempty(s: Seq<char>, c: char)
    ensures
        split_on(s, c).len() >= 1,
    decreases s.len(),
{
    lemma_first_index_of(s, c);
    let i: int = first_index_of(s, c);
    if i >= 0 {
        lemma_split_on_nonempty(s.subrange(i + 1, s.len() as int), c);
    }
}

/// A string without the separator is a single piece.
pub proof fn lemma_split_on_whole(s: Seq<char>, c: char)
    requires
        !contains_char(s, c),
    ensures
        split_on(s, c) == seq![s],
{
    lemma_first_index_of(s, c);
}

/// Splitting at the first separator: the piece before it, then the split of
/// the rest.
pub proof fn lemma_split_on_step(s: Seq<char>, c: char, i: int)
    requires
        0 <= i < s.len(),
        s[i] == c,
        forall|j: int| 0 <= j < i ==> s[j] != c,
    ensures
        split_on(s, c) == seq![s.subrange(0, i)] + split_on(
            s.subrange(i + 1, s.len() as int),
            c,
        ),
{
    lemma_first_index_of_unique(s, c, i);
}

/// The empty string has no lines.
pub proof fn lemma_lines_of_empty(s: Seq<char>)
    requires
        s.len() == 0,
    ensures
        lines_of(s) == Seq::<Seq<char>>::empty(),
{
}

/// A non-empty string without a line break is a single line.
pub proof fn lemma_lines_of_whole(s: Seq<char>)
    requires
        s.len() > 0,
        !contains_char(s, '\n'),
    ensures
        lines_of(s) == seq![s],
{
    lemma_first_index_of(s, '\n');
}

/// Splitting off the first line at the first line break.
pub proof fn lemma_lines_of_step(s: Seq<char>, i: int)
    requires
        0 <= i < s.len(),
        s[i] == '\n',
        forall|j: int| 0 <= j < i ==> s[j] != '\n',
    ensures
        lines_of(s) == seq![line_text(s.subrange(0, i))] + lines_of(
            s.subrange(i + 1, s.len() as int),
        ),
{
    lemma_first_index_of_unique(s, '\n', i);
}

/// An occurrence of `c` with no later occurrence is the last one.
pub proof fn lemma_last_index_of_unique(s: Seq<char>, c: char, i: int)
    requires
        0 <= i < s.len(),
        s[i] == c,
        forall|j: int| i < j < s.len() ==> s[j] != c,
    ensures
        last_index_of(s, c) == i,
{
    lemma_last_index_of(s, c);
    assert(contains_char(s, c));
    let li: int = last_index_of(s, c);
    if li < i {
        assert(s[i] != c);
    } else if li > i {
        assert(s[li] != c);
    }
}

/// An occurrence of `c` with no earlier occurrence is the first one.
pub proof fn lemma_first_index_of_unique(s: Seq<char>, c: char, i: int)
    requires
        0 <= i < s.len(),
        s[i] == c,
        forall|j: int| 0 <= j < i ==> s[j] != c,
    ensures
        first_index_of(s, c) == i,
{
    lemma_first_index_of(s, c);
    assert(contains_char(s, c));
    let fi: int = first_index_of(s, c);
    if fi < i {
        assert(s[fi] != c);
    } else if fi > i {
        assert(s[i] != c);
    }
}

/// A line is a well-formed record when it contains the path/value delimiter.
pub open spec fn line_has_delimiter(s: Seq<char>) -> bool {
    contains_char(s, ':')
}

/// The path of a record line: everything before the last `:`, split on `/`.
pub open spec fn path_of(s: Seq<char>) -> Seq<Seq<char>>
    recommends
        line_has_delimiter(s),
{
    split_on(s.subrange(0, last_index_of(s, ':')), '/')
}

/// The value of a record line: everything after the last `:`.
pub open spec fn value_of(s: Seq<char>) -> Seq<char>
    recommends
        line_has_delimiter(s),
{
    s.subrange(last_index_of(s, ':') + 1, s.len() as int)
}

/// Every line of `s` is a well-formed record.
pub open spec fn all_lines_have_delimiter(s: Seq<char>) -> bool {
    forall|k: int| 0 <= k < lines_of(s).len() ==> line_has_delimiter(#[trigger] lines_of(s)[k])
}

/// Putting `:` and a colon-free value `v` after any path text `p` gives a
/// well-formed record line whose value is exactly `v` and whose path is `p`
/// split on `/`, whatever characters `p` holds. (A `:` inside `v` would move
/// the split point into `v`, so such values are left out.)
pub proof fn lemma_parse_of_joined_line(p: Seq<char>, v: Seq<char>)
    requires
        !contains_char(v, ':'),
    ensures
        line_has_delimiter(p + seq![':'] + v),
        value_of(p + seq![':'] + v) == v,
        path_of(p + seq![':'] + v) == split_on(p, '/'),
{
    let s = p + seq![':'] + v;
    assert(s[p.len() as int] == ':');
    assert forall|j: int| p.len() < j < s.len() implies s[j] != ':' by {
        assert(s[j] == v[j - p.len() - 1]);
        if v[j - p.len() - 1] == ':' {
            assert(contains_char(v, ':'));
        }
    }
    lemma_last_index_of_unique(s, ':', p.len() as int);
    assert(contains_char(s, ':'));
    assert(s.subrange(p.len() as int + 1, s.len() as int) =~= v);
    assert(s.subrange(0, p.len() as int) =~= p);
}

/// A single line without the delimiter makes the whole template malformed,
/// whatever the lines after it hold.
pub proof fn lemma_one_bad_line_fails_template(t: Seq<char>, k: int)
    requires
        0 <= k < lines_of(t).len(),
        !line_has_delimiter(lines_of(t)[k]),
    ensures
        !all_lines_have_delimiter(t),
{
}

/// The one way a template can be malformed: a line without the `:` delimiter.
#[derive(Clone, Copy, Debug, PartialEq, Eq)]
pub enum ParsingError {
    InvalidPathAndValue,
}

impl ParsingError {
    /// A fixed human-readable description of the error.
    pub fn message(&self) -> (r: String)
        ensures
            r@ == "invalid path and value format"@,
    {
        match self {
            ParsingError::InvalidPathAndValue => "invalid path and value format".to_owned(),
        }
    }
}

/// Splits `s` on `/`, keeping empty segments.
fn split_segments(s: &str) -> (r: Vec<String>)
    ensures
        r.deep_view() == split_on(s@, '/'),
        r.len() >= 1,
{
    let n: usize = s.unicode_len();
    let mut segs: Vec<String> = Vec::new();
    let mut start: usize = 0;
    let mut i: usize = 0;
    proof {
        assert(s@.subrange(0, n as int) =~= s@);
        assert(segs.deep_view() =~= Seq::<Seq<char>>::empty());
        assert(segs.deep_view() + split_on(s@, '/') =~= split_on(s@, '/'));
    }
    while i < n
        invariant
            n == s@.len(),
            0 <= start <= i <= n,
            forall|k: int| start <= k < i ==> s@[k] != '/',
            split_on(s@, '/') == segs.deep_view() + split_on(
                s@.subrange(start as int, n as int),
                '/',
            ),
        decreases n - i,
    {
        let c = s.get_char(i);
        if c == '/' {
            let piece = s.substring_char(start, i).to_owned();
            let ghost pre = segs.deep_view();
            let ghost tail = s@.subrange(start as int, n as int);
            proof {
                assert(tail[i - start] == s@[i as int]);
                assert forall|j: int| 0 <= j < i - start implies tail[j] != '/' by {
                    assert(tail[j] == s@[start + j]);
                }
                lemma_split_on_step(tail, '/', i - start);
                assert(tail.subrange(0, i - start) =~= s@.subrange(start as int, i as int));
                assert(tail.subrange(i - start + 1, tail.len() as int) =~= s@.subrange(
                    i + 1 as int,
                    n as int,
                ));
            }
            segs.push(piece);
            proof {
                assert(segs.deep_view() =~= pre.push(s@.subrange(start as int, i as int)));
                assert(split_on(s@, '/') =~= segs.deep_view() + split_on(
                    s@.subrange(i + 1 as int, n as int),
                    '/',
                ));
            }
            start = i + 1;
        }
        i += 1;
    }
    let last_piece = s.substring_char(start, n).to_owned();
    let ghost pre = segs.deep_view();
    let ghost tail = s@.subrange(start as int, n as int);
    proof {
        assert forall|j: int| 0 <= j < tail.len() implies tail[j] != '/' by {
            assert(tail[j] == s@[start + j]);
        }
        assert(!contains_char(tail, '/'));
        lemma_split_on_whole(tail, '/');
    }
    segs.push(last_piece);
    proof {
        assert(segs.deep_view() =~= pre.push(tail));
        assert(segs.deep_view() =~= split_on(s@, '/'));
    }
    segs
}

/// One record of a template: a `/`-separated path and the value after the
/// last `:` of the line.
#[derive(Debug)]
pub struct PathAndValue {
    pub path: Vec<String>,
    pub value: String,
}

impl PartialEq for PathAndValue {
    /// Two records are equal when their paths agree segment for segment and
    /// their values agree.
    fn eq(&self, other: &Self) -> (r: bool) {
        if self.path.len() != other.path.len() {
            proof {
                assert(self.path.deep_view().len() != other.path.deep_view().len());
            }
            return false;
        }
        let mut i: usize = 0;
        while i < self.path.len()
            invariant
                self.path@.len() == other.path@.len(),
                0 <= i <= self.path@.len(),
                forall|k: int| 0 <= k < i ==> self.path@[k]@ == other.path@[k]@,
            decreases self.path@.len() - i,
        {
            if self.path[i] != other.path[i] {
                proof {
                    assert(self.path.deep_view()[i as int] != other.path.deep_view()[i as int]);
                }
                return false;
            }
            i += 1;
        }
        proof {
            assert(self.path.deep_view() =~= other.path.deep_view());
        }
        self.value == other.value
    }
}

impl vstd::std_specs::cmp::PartialEqSpecImpl for PathAndValue {
    open spec fn obeys_eq_spec() -> bool {
        true
    }

    open spec fn eq_spec(&self, other: &Self) -> bool {
        self.path.deep_view() == other.path.deep_view() && self.value@ == other.value@
    }
}

impl PathAndValue {
    /// Parses one record line. The text after the last `:` is the value; the
    /// text before it, split on `/`, is the path. A line without a `:` is
    /// rejected, and that is the only way to fail.
    pub fn parse(content: &str) -> (r: Result<Self, ParsingError>)
        ensures
            r is Ok <==> line_has_delimiter(content@),
            r matches Ok(pv) ==> {
                &&& pv.path.deep_view() == path_of(content@)
                &&& pv.value@ == value_of(content@)
                &&& pv.path.len() >= 1
            },
            r matches Err(e) ==> e == ParsingError::InvalidPathAndValue,
    {
        let n: usize = content.unicode_len();
        let mut i: usize = 0;
        let mut delim: usize = 0;
        let mut found: bool = false;
        while i < n
            invariant
                n == content@.len(),
                0 <= i <= n,
                found ==> delim < i && content@[delim as int] == ':' && (forall|k: int|
                    delim < k < i ==> content@[k] != ':'),
                !found ==> forall|k: int| 0 <= k < i ==> content@[k] != ':',
            decreases n - i,
        {
            if content.get_char(i) == ':' {
                delim = i;
                found = true;
            }
            i += 1;
        }
        if !found {
            proof {
                assert(!contains_char(content@, ':'));
            }
            return Err(ParsingError::InvalidPathAndValue);
        }
        proof {
            lemma_last_index_of_unique(content@, ':', delim as int);
            assert(contains_char(content@, ':'));
        }
        let path_part = content.substring_char(0, delim);
        let value_part = content.substring_char(delim + 1, n);
        let path = split_segments(path_part);
        Ok(PathAndValue { path, value: value_part.to_owned() })
    }
}

/// Splits `s` into its lines, with `str::lines` semantics.
fn split_lines(s: &str) -> (r: Vec<String>)
    ensures
        r.deep_view() == lines_of(s@),
{
    let n: usize = s.unicode_len();
    let mut lines: Vec<String> = Vec::new();
    let mut start: usize = 0;
    let mut i: usize = 0;
    proof {
        assert(s@.subrange(0, n as int) =~= s@);
        assert(lines.deep_view() =~= Seq::<Seq<char>>::empty());
        assert(lines.deep_view() + lines_of(s@) =~= lines_of(s@));
    }
    while i < n
        invariant
            n == s@.len(),
            0 <= start <= i <= n,
            forall|k: int| start <= k < i ==> s@[k] != '\n',
            lines_of(s@) == lines.deep_view() + lines_of(s@.subrange(start as int, n as int)),
        decreases n - i,
    {
        if s.get_char(i) == '\n' {
            let line_end: usize = if i > start && s.get_char(i - 1) == '\r' {
                i - 1
            } else {
                i
            };
            let piece = s.substring_char(start, line_end).to_owned();
            let ghost pre = lines.deep_view();
            let ghost tail = s@.subrange(start as int, n as int);
            proof {
                assert(tail[i - start] == s@[i as int]);
                assert forall|j: int| 0 <= j < i - start implies tail[j] != '\n' by {
                    assert(tail[j] == s@[start + j]);
                }
                lemma_lines_of_step(tail, i - start);
                let raw = tail.subrange(0, i - start);
                assert(raw =~= s@.subrange(start as int, i as int));
                if i > start && s@[i - 1] == '\r' {
                    assert(raw.last() == s@[i - 1]);
                }
                assert(line_text(raw) =~= s@.subrange(start as int, line_end as int));
                assert(tail.subrange(i - start + 1, tail.len() as int) =~= s@.subrange(
                    i + 1 as int,
                    n as int,
                ));
            }
            lines.push(piece);
            proof {
                assert(lines.deep_view() =~= pre.push(s@.subrange(
                    start as int,
                    line_end as int,
                )));
                assert(lines_of(s@) =~= lines.deep_view() + lines_of(
                    s@.subrange(i + 1 as int, n as int),
                ));
            }
            start = i + 1;
        }
        i += 1;
    }
    let ghost tail = s@.subrange(start as int, n as int);
    if start < n {
        let piece = s.substring_char(start, n).to_owned();
        let ghost pre = lines.deep_view();
        proof {
            assert forall|j: int| 0 <= j < tail.len() implies tail[j] != '\n' by {
                assert(tail[j] == s@[start + j]);
            }
            assert(!contains_char(tail, '\n'));
            lemma_lines_of_whole(tail);
        }
        lines.push(piece);
        proof {
            assert(lines.deep_view() =~= pre.push(tail));
            assert(lines.deep_view() =~= lines_of(s@));
        }
    } else {
        proof {
            assert(tail.len() == 0);
            lemma_lines_of_empty(tail);
            assert(lines.deep_view() =~= lines_of(s@));
        }
    }
    lines
}

/// A parsed template: one record per line of the input, in input order.
pub struct Template {
    pub fields: Vec<PathAndValue>,
}

impl Template {
    /// Parses a whole template: one record per line, in line order. The
    /// first line without a `:` makes the whole parse fail; nothing partial
    /// is ever returned.
    pub fn parse(content: &str) -> (r: Result<Self, ParsingError>)
        ensures
            r is Ok <==> all_lines_have_delimiter(content@),
            r matches Ok(t) ==> {
                &&& t.fields.len() == lines_of(content@).len()
                &&& forall|k: int| 0 <= k < t.fields@.len() ==> {
                    &&& (#[trigger] t.fields@[k]).path.deep_view() == path_of(
                        lines_of(content@)[k],
                    )
                    &&& t.fields@[k].value@ == value_of(lines_of(content@)[k])
                    &&& t.fields@[k].path@.len() >= 1
                }
            },
            r matches Err(e) ==> e == ParsingError::InvalidPathAndValue,
    {
        let lines = split_lines(content);
        let mut fields: Vec<PathAndValue> = Vec::new();
        let mut i: usize = 0;
        while i < lines.len()
            invariant
                lines.deep_view() == lines_of(content@),
                0 <= i <= lines@.len(),
                fields@.len() == i,
                forall|k: int|
                    0 <= k < i ==> line_has_delimiter(#[trigger] lines_of(content@)[k]),
                forall|k: int| 0 <= k < i ==> {
                    &&& (#[trigger] fields@[k]).path.deep_view() == path_of(
                        lines_of(content@)[k],
                    )
                    &&& fields@[k].value@ == value_of(lines_of(content@)[k])
                    &&& fields@[k].path@.len() >= 1
                },
            decreases lines@.len() - i,
        {
            proof {
                assert(lines.deep_view()[i as int] == lines@[i as int]@);
            }
            match PathAndValue::parse(lines[i].as_str()) {
                Ok(pv) => fields.push(pv),
                Err(e) => {
                    proof {
                        assert(!line_has_delimiter(lines_of(content@)[i as int]));
                    }
                    return Err(e);
                },
            }
            i += 1;
        }
        Ok(Template { fields })
    }
}

} // verus!
