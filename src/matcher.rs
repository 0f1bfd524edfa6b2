//! Deciding whether one line matches a query. The query is always taken
//! literally: it is escaped before it reaches the regular-expression engine,
//! so characters such as `.` or `*` in a query match only themselves.

use vstd::prelude::*;
use crate::lines::{lines, split_lines, views};

verus! {

#[verifier::external_type_specification]
#[verifier::external_body]
pub struct ExRegex(regex::Regex);

#[verifier::external_type_specification]
#[verifier::external_body]
pub struct ExRegexError(regex::Error);

/// Why a query could not be turned into a matcher.
#[derive(Clone, Copy, Debug, PartialEq, Eq, Structural)]
pub enum SearchError {
    /// The engine refused the pattern built from the query (for example, it
    /// would exceed the engine's size limit).
    InvalidPattern,
}

/// `q` occurs in `hay` as a contiguous run of characters.
pub open spec fn contains(hay: Seq<char>, q: Seq<char>) -> bool {
    exists|i: int| 0 <= i <= hay.len() - q.len() && #[trigger] hay.subrange(i, i + q.len()) == q
}

/// `a` and `b` are the same character, or the same ASCII letter in two cases.
pub open spec fn ascii_case_eq(a: char, b: char) -> bool {
    ||| a == b
    ||| ('A' <= a <= 'Z' && b as u32 == a as u32 + 32)
    ||| ('A' <= b <= 'Z' && a as u32 == b as u32 + 32)
}

/// `q` occurs in `hay` at `i` when ASCII letters are compared without case.
pub open spec fn occurs_ignoring_ascii_case(hay: Seq<char>, q: Seq<char>, i: int) -> bool {
    &&& 0 <= i <= hay.len() - q.len()
    &&& forall|j: int| 0 <= j < q.len() ==> ascii_case_eq(#[trigger] hay[i + j], q[j])
}

/// `q` occurs somewhere in `hay` when ASCII letters are compared without case.
pub open spec fn contains_ignoring_ascii_case(hay: Seq<char>, q: Seq<char>) -> bool {
    exists|i: int| occurs_ignoring_ascii_case(hay, q, i)
}

/// The characters that have a meaning of their own in the pattern language.
pub open spec fn is_meta(c: char) -> bool {
    ||| c == '\\' || c == '.' || c == '+' || c == '*' || c == '?' || c == '('
    ||| c == ')' || c == '|' || c == '[' || c == ']' || c == '{' || c == '}'
    ||| c == '^' || c == '$' || c == '#' || c == '&' || c == '-' || c == '~'
}

/// `q` with a backslash put before each meta character.
pub open spec fn escaped(q: Seq<char>) -> Seq<char>
    decreases q.len(),
{
    if q.len() == 0 {
        seq![]
    } else if is_meta(q[0]) {
        seq!['\\', q[0]] + escaped(q.drop_first())
    } else {
        seq![q[0]] + escaped(q.drop_first())
    }
}

/// The flag group that makes the rest of a pattern ignore case.
pub open spec fn ignore_case_flag() -> Seq<char> {
    seq!['(', '?', 'i', ')']
}

/// The pattern that a query becomes: the escaped query, after the flag group
/// when case is ignored.
pub open spec fn line_pattern(q: Seq<char>, case_insensitive: bool) -> Seq<char> {
    if case_insensitive {
        ignore_case_flag() + escaped(q)
    } else {
        escaped(q)
    }
}

/// Whether the engine accepts `pattern` (its syntax and its size limits).
pub uninterp spec fn compiles(pattern: Seq<char>) -> bool;

/// Whether the regular expression `pattern` finds a match in `hay`.
pub uninterp spec fn regex_matches(pattern: Seq<char>, hay: Seq<char>) -> bool;

/// Whether `line` matches the query `q` in the given mode.
pub open spec fn line_matches(q: Seq<char>, case_insensitive: bool, line: Seq<char>) -> bool {
    regex_matches(line_pattern(q, case_insensitive), line)
}

/// The lines of `ls` that match `q` in the given mode, in order.
pub open spec fn matching_lines(ls: Seq<Seq<char>>, q: Seq<char>, case_insensitive: bool) -> Seq<
    Seq<char>,
> {
    ls.filter(|l: Seq<char>| line_matches(q, case_insensitive, l))
}

/// The lines of `ls` that contain `q` exactly, in order.
pub open spec fn containing_lines(ls: Seq<Seq<char>>, q: Seq<char>) -> Seq<Seq<char>> {
    ls.filter(|l: Seq<char>| contains(l, q))
}

/// Relies on `String::push_str`, which appends `other` to `s`.
pub assume_specification[ String::push_str ](s: &mut String, other: &str)
    ensures
        final(s)@ == old(s)@ + other@,
;

/// Relies on `regex::escape`, which puts a backslash before each character
/// for which `regex_syntax::is_meta_character` holds and keeps every other
/// character.
#[verifier::external_body]
fn escape(text: &str) -> (r: String)
    ensures
        r@ == escaped(text@),
{
    regex::escape(text)
}

/// A compiled regular expression together with the pattern it came from.
struct Compiled {
    source: String,
    re: regex::Regex,
}

/// Relies on `regex::Regex::new`, which compiles `pattern` or reports why it
/// cannot; with the default settings, the outcome depends on the pattern
/// alone. The compiled expression is kept beside its pattern.
#[verifier::external_body]
fn compile(pattern: String) -> (r: Result<Compiled, regex::Error>)
    ensures
        r is Ok <==> compiles(pattern@),
        r is Ok ==> r->Ok_0.source@ == pattern@,
{
    match regex::Regex::new(&pattern) {
        Ok(re) => Ok(Compiled { source: pattern, re }),
        Err(e) => Err(e),
    }
}

/// Relies on `regex::Regex::is_match`, which says whether the expression
/// matches anywhere in `hay`. An escaped text is matched literally (as the
/// documentation of `regex::escape` states); under the flag `(?i)` a literal
/// also matches where its ASCII letters appear in another case.
#[verifier::external_body]
fn regex_is_match(c: &Compiled, hay: &str) -> (r: bool)
    ensures
        r == regex_matches(c.source@, hay@),
        forall|q: Seq<char>| c.source@ == #[trigger] escaped(q) ==> (r == contains(hay@, q)),
        forall|q: Seq<char>|
            c.source@ == ignore_case_flag() + #[trigger] escaped(q) && contains_ignoring_ascii_case(
                hay@,
                q,
            ) ==> r,
{
    c.re.is_match(hay)
}

/// A query compiled for matching lines, literally, with or without case.
pub struct LineMatcher {
    compiled: Compiled,
    query: Ghost<Seq<char>>,
    case_insensitive: bool,
}

impl LineMatcher {
    /// The query this matcher looks for.
    pub closed spec fn query(&self) -> Seq<char> {
        self.query@
    }

    /// Whether this matcher ignores case.
    pub closed spec fn ignores_case(&self) -> bool {
        self.case_insensitive
    }

    /// The compiled pattern is the one built from the query and the mode.
    pub closed spec fn wf(&self) -> bool {
        self.compiled.source@ == line_pattern(self.query@, self.case_insensitive)
    }

    /// Builds the matcher for `query`. Only the engine can refuse the
    /// pattern; then the result is `InvalidPattern`.
    pub fn new(query: &str, case_insensitive: bool) -> (r: Result<LineMatcher, SearchError>)
        ensures
            r is Ok <==> compiles(line_pattern(query@, case_insensitive)),
            r matches Ok(m) ==> m.wf() && m.query() == query@ && m.ignores_case()
                == case_insensitive,
            r is Err ==> r == Err::<LineMatcher, SearchError>(SearchError::InvalidPattern),
    {
        let literal = escape(query);
        let pattern: String = if case_insensitive {
            let mut p = String::new();
            p.push_str("(?i)");
            p.push_str(literal.as_str());
            proof {
                reveal_strlit("(?i)");
                assert(p@ =~= ignore_case_flag() + escaped(query@));
            }
            p
        } else {
            literal
        };
        match compile(pattern) {
            Ok(compiled) => Ok(LineMatcher { compiled, query: Ghost(query@), case_insensitive }),
            Err(_) => Err(SearchError::InvalidPattern),
        }
    }

    /// Whether `line` matches the query.
    pub fn is_match(&self, line: &str) -> (r: bool)
        requires
            self.wf(),
        ensures
            r == line_matches(self.query(), self.ignores_case(), line@),
            !self.ignores_case() ==> (r == contains(line@, self.query())),
            self.ignores_case() && contains_ignoring_ascii_case(line@, self.query()) ==> r,
    {
        regex_is_match(&self.compiled, line)
    }
}

/// The lines of `content` that `m` matches, each a slice of `content`, in
/// the order in which they stand there.
pub fn search_lines<'a>(m: &LineMatcher, content: &'a str) -> (r: Vec<&'a str>)
    requires
        m.wf(),
    ensures
        views(r@) == matching_lines(lines(content@), m.query(), m.ignores_case()),
        !m.ignores_case() ==> views(r@) == containing_lines(lines(content@), m.query()),
        forall|l: Seq<char>|
            #![trigger lines(content@).contains(l), contains_ignoring_ascii_case(l, m.query())]
            m.ignores_case() && lines(content@).contains(l) && contains_ignoring_ascii_case(
                l,
                m.query(),
            ) ==> views(r@).contains(l),
{
    broadcast use vstd::seq_lib::group_filter_ensures;
    let all = split_lines(content);
    let ghost ls = lines(content@);
    let ghost q = m.query();
    let ghost ci = m.ignores_case();
    let mut out: Vec<&'a str> = Vec::new();
    let mut i: usize = 0;
    while i < all.len()
        invariant
            m.wf(),
            q == m.query(),
            ci == m.ignores_case(),
            views(all@) == ls,
            0 <= i <= all.len(),
            views(out@) == matching_lines(ls.take(i as int), q, ci),
            !ci ==> views(out@) == containing_lines(ls.take(i as int), q),
            forall|k: int|
                0 <= k < i && ci && contains_ignoring_ascii_case(#[trigger] ls[k], q)
                    ==> line_matches(q, ci, ls[k]),
        decreases all.len() - i,
    {
        let line = all[i];
        let keep = m.is_match(line);
        proof {
            assert(ls[i as int] == line@);
            assert(ls.take(i + 1) =~= ls.take(i as int).push(line@));
            ls.take(i as int).lemma_filter_push(
                line@,
                |l: Seq<char>| line_matches(q, ci, l),
            );
            ls.take(i as int).lemma_filter_push(line@, |l: Seq<char>| contains(l, q));
        }
        if keep {
            proof {
                assert(views(out@.push(line)) =~= views(out@).push(line@));
            }
            out.push(line);
        }
        i = i + 1;
    }
    proof {
        assert(ls.take(all.len() as int) =~= ls);
        assert forall|l: Seq<char>|
            ci && ls.contains(l) && contains_ignoring_ascii_case(l, q) implies views(
            out@,
        ).contains(l) by {
            let k = choose|k: int| 0 <= k < ls.len() && ls[k] == l;
            assert(line_matches(q, ci, ls[k]));
            ls.lemma_filter_contains(|x: Seq<char>| line_matches(q, ci, x), k);
        }
    }
    out
}

} // verus!
