use vstd::prelude::*;

verus! {

broadcast use vstd::string::group_string_axioms;

/// The pieces of `s` between `'\n'` characters, in order, as `str::split("\n")`
/// yields them: there is always at least one piece, and a text ending in
/// `'\n'` ends with an empty piece.
pub open spec fn lines(s: Seq<char>) -> Seq<Seq<char>>
    decreases s.len(),
{
    if s.len() == 0 {
        seq![Seq::<char>::empty()]
    } else {
        let prev = lines(s.drop_last());
        if s.last() == '\n' {
            prev.push(Seq::<char>::empty())
        } else {
            prev.update(prev.len() - 1, prev.last().push(s.last()))
        }
    }
}

/// `needle` occurs in `hay` as a contiguous run (the empty needle occurs everywhere).
pub open spec fn contains(hay: Seq<char>, needle: Seq<char>) -> bool {
    exists|i: int|
        0 <= i <= hay.len() - needle.len() && #[trigger] hay.subrange(i, i + needle.len()) == needle
}

/// `c` with an ASCII upper-case letter mapped to its lower-case letter.
pub open spec fn lower_char(c: char) -> char {
    if 'A' <= c <= 'Z' {
        ((c as u32) + 32) as char
    } else {
        c
    }
}

/// `a` and `b` are the same character up to ASCII letter case: equal, or an
/// ASCII upper-case letter and its lower-case letter, which comes 32 code
/// points later.
pub open spec fn same_up_to_ascii_case(a: char, b: char) -> bool {
    ||| a == b
    ||| 'A' <= a <= 'Z' && b as u32 == a as u32 + 32
    ||| 'A' <= b <= 'Z' && a as u32 == b as u32 + 32
}

/// `needle` stands in `hay` at some position, each character the same up
/// to ASCII letter case.
pub open spec fn contains_up_to_ascii_case(hay: Seq<char>, needle: Seq<char>) -> bool {
    exists|i: int|
        0 <= i <= hay.len() - needle.len() && #[trigger] window_up_to_ascii_case(hay, needle, i)
}

/// `needle` stands in `hay` at position `i`, up to ASCII letter case.
pub open spec fn window_up_to_ascii_case(hay: Seq<char>, needle: Seq<char>, i: int) -> bool {
    forall|k: int| 0 <= k < needle.len() ==> same_up_to_ascii_case(#[trigger] hay[i + k], needle[k])
}

/// Lowering maps each ASCII upper-case letter `A` to `Z` to the letter 32
/// code points later, and leaves every other character as it is.
pub proof fn lemma_lower_char(c: char)
    ensures
        'A' <= c <= 'Z' ==> lower_char(c) as u32 == c as u32 + 32,
        !('A' <= c <= 'Z') ==> lower_char(c) == c,
{
}

/// Two characters lower alike exactly when they are the same up to ASCII
/// letter case.
pub proof fn lemma_lower_char_alike(a: char, b: char)
    ensures
        (lower_char(a) == lower_char(b)) == same_up_to_ascii_case(a, b),
{
    lemma_lower_char(a);
    lemma_lower_char(b);
}

/// A search that ignores case selects a line exactly when the line holds
/// the query somewhere, each character the same up to ASCII letter case.
pub proof fn lemma_insensitive_match_up_to_case(line: Seq<char>, query: Seq<char>)
    ensures
        line_matches(line, query, false) == contains_up_to_ascii_case(line, query),
{
    let ll = lower(line);
    let lq = lower(query);
    if line_matches(line, query, false) {
        let i = choose|i: int| 0 <= i <= ll.len() - lq.len() && #[trigger] ll.subrange(i, i + lq.len()) == lq;
        assert forall|k: int| 0 <= k < query.len() implies same_up_to_ascii_case(#[trigger] line[i + k], query[k]) by {
            assert(ll.subrange(i, i + lq.len())[k] == lq[k]);
            lemma_lower_char_alike(line[i + k], query[k]);
        }
        assert(window_up_to_ascii_case(line, query, i));
    }
    if contains_up_to_ascii_case(line, query) {
        let i = choose|i: int| 0 <= i <= line.len() - query.len() && #[trigger] window_up_to_ascii_case(line, query, i);
        assert forall|k: int| 0 <= k < lq.len() implies #[trigger] ll.subrange(i, i + lq.len())[k] == lq[k] by {
            assert(same_up_to_ascii_case(line[i + k], query[k]));
            lemma_lower_char_alike(line[i + k], query[k]);
        }
        assert(ll.subrange(i, i + lq.len()) =~= lq);
    }
}

/// Every line that a search ignoring case selects holds the query, each
/// character the same up to ASCII letter case, and every line that holds
/// it so is selected.
pub proof fn lemma_insensitive_selection_up_to_case(ls: Seq<Seq<char>>, query: Seq<char>)
    ensures
        forall|j: int|
            0 <= j < matching(ls, query, false).len() ==> contains_up_to_ascii_case(
                #[trigger] matching(ls, query, false)[j],
                query,
            ),
        forall|j: int|
            0 <= j < ls.len() && contains_up_to_ascii_case(#[trigger] ls[j], query)
                ==> matching(ls, query, false).contains(ls[j]),
    decreases ls.len(),
{
    if ls.len() > 0 {
        let d = ls.drop_last();
        lemma_insensitive_selection_up_to_case(d, query);
        lemma_insensitive_match_up_to_case(ls.last(), query);
        let prev = matching(d, query, false);
        let cur = matching(ls, query, false);
        assert forall|j: int| 0 <= j < cur.len() implies contains_up_to_ascii_case(#[trigger] cur[j], query) by {
            if j < prev.len() {
                assert(cur[j] == prev[j]);
            }
        }
        assert forall|j: int| 0 <= j < ls.len() && contains_up_to_ascii_case(#[trigger] ls[j], query)
            implies cur.contains(ls[j]) by {
            if j < d.len() {
                assert(d[j] == ls[j]);
                let k = choose|k: int| 0 <= k < prev.len() && prev[k] == ls[j];
                assert(cur[k] == prev[k]);
            } else {
                assert(cur[cur.len() - 1] == ls[j]);
            }
        }
    }
}

/// `s` with every ASCII upper-case letter mapped to lower case, as
/// `str::to_ascii_lowercase` does.
pub open spec fn lower(s: Seq<char>) -> Seq<char> {
    s.map_values(|c: char| lower_char(c))
}

/// Whether a line is selected for `query`: it contains the query, or, when
/// the search ignores case, it contains the query once both are lowered.
pub open spec fn line_matches(line: Seq<char>, query: Seq<char>, case_sensitive: bool) -> bool {
    if case_sensitive {
        contains(line, query)
    } else {
        contains(lower(line), lower(query))
    }
}

/// The lines of `ls` that match `query`, in their order.
pub open spec fn matching(ls: Seq<Seq<char>>, query: Seq<char>, case_sensitive: bool) -> Seq<
    Seq<char>,
>
    decreases ls.len(),
{
    if ls.len() == 0 {
        Seq::empty()
    } else {
        let prev = matching(ls.drop_last(), query, case_sensitive);
        if line_matches(ls.last(), query, case_sensitive) {
            prev.push(ls.last())
        } else {
            prev
        }
    }
}

/// The character sequences of a sequence of string slices.
pub open spec fn views<'a>(v: Seq<&'a str>) -> Seq<Seq<char>> {
    v.map_values(|s: &'a str| s@)
}

/// There is always at least one line.
proof fn lemma_lines_nonempty(s: Seq<char>)
    ensures
        lines(s).len() >= 1,
    decreases s.len(),
{
    if s.len() > 0 {
        lemma_lines_nonempty(s.drop_last());
    }
}

/// A line that contains the query also contains it once both are lowered:
/// every line the case-sensitive search selects, the case-insensitive
/// search selects too.
pub proof fn lemma_sensitive_match_is_insensitive_match(line: Seq<char>, query: Seq<char>)
    requires
        line_matches(line, query, true),
    ensures
        line_matches(line, query, false),
{
    let i = choose|i: int|
        0 <= i <= line.len() - query.len() && #[trigger] line.subrange(i, i + query.len())
            == query;
    assert(lower(line).subrange(i, i + lower(query).len()) =~= lower(query));
}

/// `idx` places the elements of `a` in `b`, in increasing positions.
pub open spec fn embeds<A>(a: Seq<A>, b: Seq<A>, idx: Seq<int>) -> bool {
    &&& idx.len() == a.len()
    &&& forall|i: int| 0 <= i < idx.len() ==> 0 <= #[trigger] idx[i] < b.len() && b[idx[i]] == a[i]
    &&& forall|i: int, j: int| 0 <= i < j < idx.len() ==> #[trigger] idx[i] < #[trigger] idx[j]
}

/// `a` is `b` with some elements left out, the rest kept in order.
pub open spec fn is_subsequence<A>(a: Seq<A>, b: Seq<A>) -> bool {
    exists|idx: Seq<int>| #[trigger] embeds(a, b, idx)
}

/// Where the case-sensitive selection keeps its lines within the
/// case-insensitive one.
proof fn sensitive_positions(ls: Seq<Seq<char>>, query: Seq<char>) -> (idx: Seq<int>)
    ensures
        embeds(matching(ls, query, true), matching(ls, query, false), idx),
    decreases ls.len(),
{
    if ls.len() == 0 {
        Seq::empty()
    } else {
        let prev = sensitive_positions(ls.drop_last(), query);
        let ins = matching(ls.drop_last(), query, false);
        if line_matches(ls.last(), query, true) {
            lemma_sensitive_match_is_insensitive_match(ls.last(), query);
            let idx = prev.push(ins.len() as int);
            assert forall|i: int, j: int| 0 <= i < j < idx.len() implies #[trigger] idx[i]
                < #[trigger] idx[j] by {
                if j == idx.len() - 1 {
                    assert(idx[i] == prev[i]);
                } else {
                    assert(idx[i] == prev[i] && idx[j] == prev[j]);
                }
            }
            idx
        } else {
            prev
        }
    }
}

/// The case-sensitive selection of lines is a subsequence of the
/// case-insensitive one: each line it keeps, the other keeps too, and in
/// the same order.
pub proof fn lemma_sensitive_selection_within_insensitive(ls: Seq<Seq<char>>, query: Seq<char>)
    ensures
        is_subsequence(matching(ls, query, true), matching(ls, query, false)),
{
    let idx = sensitive_positions(ls, query);
}

/// `c` with an ASCII lower-case letter mapped to its upper-case letter.
pub open spec fn upper_char(c: char) -> char {
    if 'a' <= c <= 'z' {
        ((c as u32) - 32) as char
    } else {
        c
    }
}

/// Upper-casing maps each ASCII lower-case letter `a` to `z` to the letter
/// 32 code points earlier, and leaves every other character as it is.
pub proof fn lemma_upper_char(c: char)
    ensures
        'a' <= c <= 'z' ==> upper_char(c) as u32 + 32 == c as u32,
        !('a' <= c <= 'z') ==> upper_char(c) == c,
{
}

/// `s` with every ASCII lower-case letter mapped to upper case, as
/// `str::to_ascii_uppercase` does.
pub open spec fn upper(s: Seq<char>) -> Seq<char> {
    s.map_values(|c: char| upper_char(c))
}

/// The case-insensitive selection depends on the query only through its
/// lowered form: queries that lower alike select the same lines.
pub proof fn lemma_insensitive_selection_by_lowered_query(
    ls: Seq<Seq<char>>,
    q1: Seq<char>,
    q2: Seq<char>,
)
    requires
        lower(q1) == lower(q2),
    ensures
        matching(ls, q1, false) == matching(ls, q2, false),
    decreases ls.len(),
{
    if ls.len() > 0 {
        lemma_insensitive_selection_by_lowered_query(ls.drop_last(), q1, q2);
    }
}

/// Upper-casing the query of a case-insensitive search changes nothing.
pub proof fn lemma_insensitive_selection_ignores_upper_case(ls: Seq<Seq<char>>, query: Seq<char>)
    ensures
        matching(ls, upper(query), false) == matching(ls, query, false),
{
    assert(lower(upper(query)) =~= lower(query));
    lemma_insensitive_selection_by_lowered_query(ls, upper(query), query);
}

/// The characters of `s`, one by one.
pub(crate) fn chars_of(s: &str) -> (v: Vec<char>)
    ensures
        v@ == s@,
{
    let mut v: Vec<char> = Vec::new();
    for c in it: s.chars()
        invariant
            it.seq() == s@,
            v@ == it.seq().take(it.index() as int),
    {
        v.push(c);
    }
    v
}


/// `c` with an ASCII upper-case letter mapped to lower case.
fn lower_char_exec(c: char) -> (r: char)
    ensures
        r == lower_char(c),
{
    if 'A' <= c && c <= 'Z' {
        ((c as u8) + 32) as char
    } else {
        c
    }
}

/// The characters of `v` with ASCII upper-case letters mapped to lower case.
fn lowered(v: &Vec<char>) -> (r: Vec<char>)
    ensures
        r@ == lower(v@),
{
    let mut r: Vec<char> = Vec::new();
    let mut i: usize = 0;
    while i < v.len()
        invariant
            i <= v@.len(),
            r@ == lower(v@.take(i as int)),
        decreases v@.len() - i,
    {
        r.push(lower_char_exec(v[i]));
        assert(v@.take(i + 1) =~= v@.take(i as int).push(v@[i as int]));
        i += 1;
    }
    assert(v@.take(v@.len() as int) =~= v@);
    r
}

/// Whether `needle` stands in `hay` at position `pos`.
fn matches_at(hay: &Vec<char>, pos: usize, needle: &Vec<char>) -> (r: bool)
    requires
        pos + needle@.len() <= hay@.len(),
    ensures
        r == (hay@.subrange(pos as int, pos + needle@.len()) == needle@),
{
    let m = needle.len();
    let mut k: usize = 0;
    while k < m
        invariant
            m == needle@.len(),
            pos + m <= hay.len(),
            k <= m,
            forall|j: int| 0 <= j < k ==> hay@[pos + j] == needle@[j],
        decreases m - k,
    {
        if hay[pos + k] != needle[k] {
            assert(hay@.subrange(pos as int, pos + m)[k as int] != needle@[k as int]);
            return false;
        }
        k += 1;
    }
    assert(hay@.subrange(pos as int, pos + m) =~= needle@);
    true
}

/// Whether `needle` occurs in `hay[from..to]`.
fn contains_in(hay: &Vec<char>, from: usize, to: usize, needle: &Vec<char>) -> (r: bool)
    requires
        from <= to <= hay@.len(),
    ensures
        r == contains(hay@.subrange(from as int, to as int), needle@),
{
    let ghost line = hay@.subrange(from as int, to as int);
    let m = needle.len();
    if m > to - from {
        return false;
    }
    if m == 0 {
        assert(line.subrange(0, 0 + needle@.len() as int) =~= needle@);
        return true;
    }
    let mut i: usize = from;
    while i <= to - m
        invariant
            from <= i <= to - m + 1,
            m == needle@.len(),
            0 < m <= to - from,
            to <= hay@.len(),
            line == hay@.subrange(from as int, to as int),
            forall|j: int|
                from <= j < i ==> #[trigger] hay@.subrange(j, j + m) != needle@,
        decreases to - m + 1 - i,
    {
        if matches_at(hay, i, needle) {
            assert(line.subrange(i - from, i - from + needle@.len()) =~= hay@.subrange(i as int, i + m));
            return true;
        }
        i += 1;
    }
    assert forall|j: int| 0 <= j <= line.len() - m implies #[trigger] line.subrange(j, j + m)
        != needle@ by {
        assert(line.subrange(j, j + m) =~= hay@.subrange(from + j, from + j + m));
        assert(hay@.subrange(from + j, from + j + m) != needle@);
    }
    false
}

/// The lines of `contents` that match `query`, as slices of `contents`.
fn select_lines<'a>(query: &str, contents: &'a str, case_sensitive: bool) -> (result: Vec<&'a str>)
    ensures
        views(result@) == matching(lines(contents@), query@, case_sensitive),
{
    let text = chars_of(contents);
    let q = chars_of(query);
    let hay = if case_sensitive { text } else { lowered(&text) };
    let needle = if case_sensitive { q } else { lowered(&q) };
    let ghost s = contents@;
    let n = hay.len();
    let mut result: Vec<&'a str> = Vec::new();
    let mut start: usize = 0;
    let mut i: usize = 0;
    proof {
        assert(s.take(0) =~= Seq::<char>::empty());
        assert(s.subrange(0, 0) =~= Seq::<char>::empty());
    }
    while i < n
        invariant
            n == s.len(),
            s == contents@,
            hay@ == (if case_sensitive { s } else { lower(s) }),
            needle@ == (if case_sensitive { query@ } else { lower(query@) }),
            start <= i <= n,
            lines(s.take(i as int)).last() == s.subrange(start as int, i as int),
            views(result@) == matching(lines(s.take(i as int)).drop_last(), query@, case_sensitive),
        decreases n - i,
    {
        let ghost ls = lines(s.take(i as int));
        proof {
            lemma_lines_nonempty(s.take(i as int));
            assert(s.take(i + 1).drop_last() =~= s.take(i as int));
            assert(s.take(i + 1).last() == s[i as int]);
        }
        if hay[i] == '\n' {
            assert(s[i as int] == '\n');
            let found = contains_in(&hay, start, i, &needle);
            proof {
                let line = s.subrange(start as int, i as int);
                if !case_sensitive {
                    assert(hay@.subrange(start as int, i as int) =~= lower(line));
                }
                assert(found == line_matches(line, query@, case_sensitive));
                assert(ls =~= ls.drop_last().push(ls.last()));
                assert(lines(s.take(i + 1)).drop_last() =~= ls);
            }
            if found {
                let line = contents.substring_char(start, i);
                let ghost prev = result@;
                result.push(line);
                assert(views(result@) =~= views(prev).push(line@));
            }
            start = i + 1;
            assert(s.subrange(start as int, start as int) =~= Seq::<char>::empty());
        } else {
            assert(s[i as int] != '\n');
            assert(s.subrange(start as int, i + 1) =~= s.subrange(start as int, i as int).push(
                s[i as int],
            ));
            assert(lines(s.take(i + 1)).drop_last() =~= ls.drop_last());
        }
        i += 1;
    }
    proof {
        assert(s.take(n as int) =~= s);
        lemma_lines_nonempty(s);
    }
    let ghost ls = lines(s);
    let found = contains_in(&hay, start, n, &needle);
    proof {
        let line = s.subrange(start as int, n as int);
        if !case_sensitive {
            assert(hay@.subrange(start as int, n as int) =~= lower(line));
        }
        assert(found == line_matches(line, query@, case_sensitive));
        assert(ls =~= ls.drop_last().push(ls.last()));
    }
    if found {
        let line = contents.substring_char(start, n);
        let ghost prev = result@;
        result.push(line);
        assert(views(result@) =~= views(prev).push(line@));
    }
    result
}

/// The lines of `contents` that contain `query`, in order, as slices of
/// `contents`.  Lines are the pieces between `'\n'` characters.
pub fn search<'a>(query: &str, contents: &'a str) -> (result: Vec<&'a str>)
    ensures
        views(result@) == matching(lines(contents@), query@, true),
{
    select_lines(query, contents, true)
}

/// The lines of `contents` that contain `query` when ASCII letters are
/// compared without regard to case, in order, as slices of `contents`.
pub fn search_case_insensitive<'a>(query: &str, contents: &'a str) -> (result: Vec<&'a str>)
    ensures
        views(result@) == matching(lines(contents@), query@, false),
{
    select_lines(query, contents, false)
}

/// What to search for, where, and whether case matters.
pub struct Config {
    pub query: String,
    pub filename: String,
    pub case_sensitive: bool,
}

impl Config {
    /// Reads the query and the file name from the program's arguments
    /// (`args[0]` is the program itself).  Fewer than three arguments is an
    /// error.  `case_sensitive` is whether the search heeds case; the program
    /// sets it unless the environment variable `CASE_INSENSITIVE` is set.
    pub fn new(args: &Vec<String>, case_sensitive: bool) -> (result: Result<Config, &'static str>)
        ensures
            args@.len() < 3 <==> result is Err,
            result matches Err(e) ==> e@ == "Not enough arguments"@,
            result matches Ok(config) ==> {
                &&& config.query@ == args@[1]@
                &&& config.filename@ == args@[2]@
                &&& config.case_sensitive == case_sensitive
            },
    {
        if args.len() < 3 {
            Err("Not enough arguments")
        } else {
            let query = args[1].clone();
            let filename = args[2].clone();
            Ok(Config { query, filename, case_sensitive })
        }
    }

    /// The lines of `contents` that the configured search selects: those
    /// containing the query, ignoring ASCII case unless the search is case
    /// sensitive.
    pub fn matching_lines<'a>(&self, contents: &'a str) -> (result: Vec<&'a str>)
        ensures
            views(result@) == matching(lines(contents@), self.query@, self.case_sensitive),
    {
        if self.case_sensitive {
            search(self.query.as_str(), contents)
        } else {
            search_case_insensitive(self.query.as_str(), contents)
        }
    }
}

} // verus!
