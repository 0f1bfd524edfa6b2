//! A small line-oriented text search: split a document into lines and keep
//! those that contain a query, optionally ignoring letter case.
//!
//! The query is always a literal text: it is escaped before it reaches the
//! regular-expression engine, so `a.c` finds only the three characters
//! `a.c`, never `abc`.

pub mod lines;
pub mod matcher;

use vstd::prelude::*;
use crate::lines::{lines, views};
use crate::matcher::{
    compiles, contains, contains_ignoring_ascii_case, containing_lines, line_pattern,
    matching_lines, search_lines, LineMatcher, SearchError,
};

verus! {

/// What the command line asks for: a query, a file and a case mode.
pub struct Config<'a> {
    pub query: &'a str,
    pub file_path: &'a str,
    pub is_case_insensitive: bool,
}

/// The argument that turns on case-insensitive search.
pub open spec fn ignore_case_arg() -> Seq<char> {
    seq!['i']
}

impl<'a> Config<'a> {
    /// Reads the arguments of the program (`args[0]` is its name): the
    /// query, the file path, and an optional `i` for case-insensitive search.
    pub fn new(args: &'a [String]) -> (r: Result<Config<'a>, &'static str>)
        ensures
            r is Err <==> args@.len() < 3,
            r matches Err(msg) ==> msg@ == "Provide at least 2 arguments: query filename"@,
            r matches Ok(c) ==> {
                &&& c.query@ == args@[1]@
                &&& c.file_path@ == args@[2]@
                &&& c.is_case_insensitive == (args@.len() > 3 && args@[3]@ == ignore_case_arg())
            },
    {
        let arg_len = args.len();
        if arg_len < 3 {
            return Err("Provide at least 2 arguments: query filename");
        }
        let mut is_case_insensitive = false;
        if arg_len > 3 {
            let flag = args[3].as_str();
            is_case_insensitive = flag.unicode_len() == 1 && flag.get_char(0) == 'i';
            proof {
                if flag@.len() == 1 && flag@[0] == 'i' {
                    assert(flag@ =~= ignore_case_arg());
                }
            }
        }
        Ok(Config { query: args[1].as_str(), file_path: args[2].as_str(), is_case_insensitive })
    }
}

/// One search: a query, the document to search, and the case mode.
pub struct QueryParams<'a> {
    query: &'a str,
    content: &'a str,
    is_case_insensitive: bool,
}

impl<'a> QueryParams<'a> {
    /// The query to look for.
    pub closed spec fn query(&self) -> Seq<char> {
        self.query@
    }

    /// The document to search.
    pub closed spec fn content(&self) -> Seq<char> {
        self.content@
    }

    /// Whether the search ignores case.
    pub closed spec fn ignores_case(&self) -> bool {
        self.is_case_insensitive
    }

    /// Gathers the query, the document and the case mode of one search.
    pub fn new(query: &'a str, content: &'a str, is_case_insensitive: bool) -> (r: QueryParams<'a>)
        ensures
            r.query() == query@,
            r.content() == content@,
            r.ignores_case() == is_case_insensitive,
    {
        QueryParams { query, content, is_case_insensitive }
    }
}

/// What a search of document `d` for `q` gives: the matching lines in order,
/// or `InvalidPattern` when the engine refuses the pattern built from `q`.
pub open spec fn search_outcome(q: Seq<char>, d: Seq<char>, case_insensitive: bool) -> Result<
    Seq<Seq<char>>,
    SearchError,
> {
    if compiles(line_pattern(q, case_insensitive)) {
        Ok(matching_lines(lines(d), q, case_insensitive))
    } else {
        Err(SearchError::InvalidPattern)
    }
}

/// The character views of a search result.
pub open spec fn outcome_views(r: Result<Vec<&str>, SearchError>) -> Result<
    Seq<Seq<char>>,
    SearchError,
> {
    match r {
        Ok(v) => Ok(views(v@)),
        Err(e) => Err(e),
    }
}

/// The lines of the document that contain the query, each a slice of the
/// document, in document order. Without case, a line is kept exactly when it
/// holds the query; with case ignored, every line that holds it up to the
/// case of ASCII letters is kept too. An empty query keeps every line.
pub fn search<'a>(params: QueryParams<'a>) -> (r: Result<Vec<&'a str>, SearchError>)
    ensures
        outcome_views(r) == search_outcome(params.query(), params.content(), params.ignores_case()),
        !params.ignores_case() ==> (r matches Ok(v) ==> views(v@) == containing_lines(
            lines(params.content()),
            params.query(),
        )),
        params.ignores_case() ==> (r matches Ok(v) ==> forall|l: Seq<char>|
            #![trigger lines(params.content()).contains(l), contains_ignoring_ascii_case(l, params.query())]
            lines(params.content()).contains(l) && contains_ignoring_ascii_case(l, params.query())
                ==> views(v@).contains(l)),
        params.query().len() == 0 ==> (r matches Ok(v) ==> views(v@) == lines(params.content())),
{
    let m = LineMatcher::new(params.query, params.is_case_insensitive);
    match m {
        Ok(m) => {
            let found = search_lines(&m, params.content);
            proof {
                let ls = lines(params.content@);
                if params.query@.len() == 0 {
                    lemma_empty_query_keeps_all(
                        ls,
                        params.query@,
                        params.is_case_insensitive,
                        views(found@),
                    );
                }
            }
            Ok(found)
        },
        Err(e) => Err(e),
    }
}

/// Every line holds the empty query, so a result that keeps the matching
/// lines and every line holding the query is all of the lines.
proof fn lemma_empty_query_keeps_all(
    ls: Seq<Seq<char>>,
    q: Seq<char>,
    ci: bool,
    found: Seq<Seq<char>>,
)
    requires
        q.len() == 0,
        found == matching_lines(ls, q, ci),
        !ci ==> found == containing_lines(ls, q),
        ci ==> forall|l: Seq<char>|
            #![trigger ls.contains(l), contains_ignoring_ascii_case(l, q)]
            ls.contains(l) && contains_ignoring_ascii_case(l, q) ==> found.contains(l),
    ensures
        found == ls,
{
    broadcast use vstd::seq_lib::group_filter_ensures;
    let p = |l: Seq<char>| matcher::line_matches(q, ci, l);
    assert forall|k: int| 0 <= k < ls.len() implies p(ls[k]) by {
        let l = ls[k];
        assert(l.subrange(0int, 0int + q.len()) =~= q);
        assert(contains(l, q));
        assert(matcher::occurs_ignoring_ascii_case(l, q, 0));
        assert(contains_ignoring_ascii_case(l, q));
        assert(ls.contains(l));
        if ci {
            assert(found.contains(l));
            let j = choose|j: int| 0 <= j < found.len() && found[j] == l;
            ls.lemma_filter_pred(p, j);
        } else {
            let c = |x: Seq<char>| contains(x, q);
            ls.lemma_filter_contains(c, k);
            let j = choose|j: int| 0 <= j < found.len() && found[j] == l;
            ls.lemma_filter_pred(p, j);
        }
    }
    lemma_filter_all(ls, p);
}

/// `sub` is drawn from `ls` keeping its order: each element of `sub` stands
/// in `ls` at a position, and these positions increase along `sub`.
pub open spec fn in_order(sub: Seq<Seq<char>>, ls: Seq<Seq<char>>) -> bool {
    exists|idx: Seq<int>| #[trigger] positions_in_order(idx, sub, ls)
}

/// `idx` gives, for each element of `sub`, a position in `ls` that holds it,
/// and the positions increase.
pub open spec fn positions_in_order(
    idx: Seq<int>,
    sub: Seq<Seq<char>>,
    ls: Seq<Seq<char>>,
) -> bool {
    &&& idx.len() == sub.len()
    &&& forall|i: int|
        0 <= i < idx.len() ==> 0 <= #[trigger] idx[i] < ls.len() && ls[idx[i]] == sub[i]
    &&& forall|i: int, j: int| 0 <= i < j < idx.len() ==> idx[i] < idx[j]
}

/// A case-sensitive search keeps every line that contains the query, and
/// the lines it keeps stand in the order of the document.
pub proof fn lemma_containing_line_kept(d: Seq<char>, q: Seq<char>, l: Seq<char>)
    requires
        lines(d).contains(l),
        contains(l, q),
    ensures
        containing_lines(lines(d), q).contains(l),
        in_order(containing_lines(lines(d), q), lines(d)),
{
    broadcast use vstd::seq_lib::group_filter_ensures;
    let ls = lines(d);
    let k = choose|k: int| 0 <= k < ls.len() && ls[k] == l;
    ls.lemma_filter_contains(|x: Seq<char>| contains(x, q), k);
    lemma_filter_in_order(ls, |x: Seq<char>| contains(x, q));
}

/// A case-sensitive search for a query that no line contains keeps nothing.
pub proof fn lemma_absent_query_finds_nothing(d: Seq<char>, q: Seq<char>)
    requires
        forall|l: Seq<char>| #[trigger] lines(d).contains(l) ==> !contains(l, q),
    ensures
        containing_lines(lines(d), q) == Seq::<Seq<char>>::empty(),
{
    let ls = lines(d);
    let p = |x: Seq<char>| contains(x, q);
    assert forall|k: int| 0 <= k < ls.len() implies !p(#[trigger] ls[k]) by {
        assert(ls.contains(ls[k]));
    }
    assert(ls.all(|x: Seq<char>| !p(x)));
    ls.lemma_all_neg_filter_empty(p);
    assert(ls.filter(p) =~= Seq::<Seq<char>>::empty());
}

/// Searching twice with the same query, document and mode gives the same
/// outcome.
pub proof fn lemma_search_repeatable(
    q: Seq<char>,
    d: Seq<char>,
    case_insensitive: bool,
    first: Result<Seq<Seq<char>>, SearchError>,
    second: Result<Seq<Seq<char>>, SearchError>,
)
    requires
        first == search_outcome(q, d, case_insensitive),
        second == search_outcome(q, d, case_insensitive),
    ensures
        first == second,
{
}

/// Filtering keeps the order of the elements it keeps.
proof fn lemma_filter_in_order(ls: Seq<Seq<char>>, p: spec_fn(Seq<char>) -> bool)
    ensures
        in_order(ls.filter(p), ls),
    decreases ls.len(),
{
    reveal(Seq::filter);
    if ls.len() == 0 {
        let idx = Seq::<int>::empty();
        assert(positions_in_order(idx, ls.filter(p), ls));
    } else {
        let rest = ls.drop_last();
        lemma_filter_in_order(rest, p);
        let sub = rest.filter(p);
        let idx0 = choose|idx: Seq<int>| positions_in_order(idx, sub, rest);
        if p(ls.last()) {
            let idx = idx0.push(ls.len() - 1);
            assert(ls.filter(p) == sub.push(ls.last()));
            assert(positions_in_order(idx, ls.filter(p), ls));
        } else {
            assert(positions_in_order(idx0, ls.filter(p), ls));
        }
    }
}

/// Filtering by a predicate that every element meets keeps the sequence.
proof fn lemma_filter_all(ls: Seq<Seq<char>>, p: spec_fn(Seq<char>) -> bool)
    requires
        forall|k: int| 0 <= k < ls.len() ==> p(#[trigger] ls[k]),
    ensures
        ls.filter(p) == ls,
    decreases ls.len(),
{
    reveal(Seq::filter);
    if ls.len() > 0 {
        lemma_filter_all(ls.drop_last(), p);
        assert(ls.drop_last().push(ls.last()) =~= ls);
    }
}

} // verus!
