//! Route-pattern text: shared-prefix lengths, brace-delimited parameter
//! syntax, and the parser that turns a pattern string into segments.
//!
//! A pattern must start with `/` and mixes literal text with parameters
//! written `{name}` or `{name:regex}`. A parameter without a regex defaults
//! to `.+`, which accepts one or more characters of the path segment.

use vstd::prelude::*;

use crate::Error;
use crate::chars::{chars_slice, chars_to_string, str_to_chars};
use crate::rx::{ParamRegex, regex_compiles};

verus! {

/// The first position at or after `i` where `c` occurs in `s`, if any.
pub open spec fn find_from(s: Seq<char>, c: char, i: int) -> Option<int>
    decreases s.len() - i,
    when 0 <= i <= s.len()
{
    if i == s.len() {
        None
    } else if s[i] == c {
        Some(i)
    } else {
        find_from(s, c, i + 1)
    }
}

/// Finds the first occurrence of `c` in `v` at or after position `from`.
pub fn find_char(v: &Vec<char>, c: char, from: usize) -> (r: Option<usize>)
    requires
        from <= v@.len(),
    ensures
        match r {
            Some(j) => find_from(v@, c, from as int) == Some(j as int) && from <= j < v@.len(),
            None => find_from(v@, c, from as int) is None,
        },
{
    let mut i: usize = from;
    while i < v.len()
        invariant
            from <= i <= v@.len(),
            find_from(v@, c, from as int) == find_from(v@, c, i as int),
        decreases v@.len() - i,
    {
        if v[i] == c {
            return Some(i);
        }
        i = i + 1;
    }
    None
}

/// The length of the longest common prefix of `a` and `b`, where a `{` in
/// `b` never counts as matching.
pub open spec fn match_len_spec(a: Seq<char>, b: Seq<char>) -> nat
    decreases a.len(),
{
    if a.len() == 0 || b.len() == 0 {
        0nat
    } else if a[0] == b[0] && b[0] != '{' {
        1nat + match_len_spec(a.skip(1), b.skip(1))
    } else {
        0nat
    }
}

pub proof fn lemma_match_len_at(a: Seq<char>, b: Seq<char>, i: int)
    requires
        0 <= i <= a.len(),
        i <= b.len(),
        forall|j: int| 0 <= j < i ==> a[j] == b[j] && b[j] != '{',
        i == a.len() || i == b.len() || !(a[i] == b[i] && b[i] != '{'),
    ensures
        match_len_spec(a, b) == i,
    decreases i,
{
    if i == 0 {
    } else {
        assert(a[0] == b[0] && b[0] != '{');
        lemma_match_len_at(a.skip(1), b.skip(1), i - 1);
    }
}

spec fn common_prefix_to(key: Seq<char>, path: Seq<char>, from: int, i: int) -> bool {
    forall|j: int| 0 <= j < i ==> key[j] == path[from + j] && path[from + j] != '{'
}

/// The shared-prefix length of `key` and `path[from..]`.
pub fn match_len_from(key: &Vec<char>, path: &Vec<char>, from: usize) -> (r: usize)
    requires
        from <= path@.len(),
    ensures
        r == match_len_spec(key@, path@.skip(from as int)),
        r <= key@.len(),
        from + r <= path@.len(),
{
    let mut i: usize = 0;
    loop
        invariant
            from <= path@.len(),
            0 <= i <= key@.len(),
            from + i <= path@.len(),
            common_prefix_to(key@, path@, from as int, i as int),
        ensures
            i <= key@.len(),
            from + i <= path@.len(),
            common_prefix_to(key@, path@, from as int, i as int),
            i == key@.len() || from + i == path@.len() || !(key@[i as int] == path@[from as int
                + i as int] && path@[from as int + i as int] != '{'),
        decreases key@.len() - i,
    {
        if i >= key.len() {
            break ;
        }
        if i >= path.len() - from {
            break ;
        }
        let kc = key[i];
        let pc = path[from + i];
        if kc != pc || pc == '{' {
            break ;
        }
        proof {
            assert(common_prefix_to(key@, path@, from as int, i as int + 1)) by {
                assert(key@[i as int] == path@[from as int + i as int]);
            }
        }
        i = i + 1;
    }
    proof {
        let b = path@.skip(from as int);
        assert(common_prefix_to(key@, path@, from as int, i as int));
        assert(forall|j: int| 0 <= j < i ==> key@[j] == path@[from as int + j] && path@[from as int + j] != '{');
        assert(forall|j: int| 0 <= j < i ==> b[j] == path@[from as int + j]);
        lemma_match_len_at(key@, b, i as int);
    }
    i
}

/// Determines the length of the shared prefix of two strings.
/// E.g. `get_match_len("apple", "ape")` is 2.
pub fn get_match_len(a: &str, b: &str) -> (r: usize)
    ensures
        r == match_len_spec(a@, b@),
{
    let av = str_to_chars(a);
    let bv = str_to_chars(b);
    proof {
        assert(bv@.skip(0) =~= bv@);
    }
    match_len_from(&av, &bv, 0)
}

/// What remains of `p` from its first `/` on; empty when `p` has no `/`.
pub open spec fn end_of_param_spec(p: Seq<char>) -> Seq<char> {
    match find_from(p, '/', 0) {
        Some(i) => p.skip(i),
        None => Seq::empty(),
    }
}

/// The suffix of `path` starting at its first `/`, or the empty string when
/// no `/` occurs. Inserting below a parameter node resumes there.
pub fn end_of_param(path: &str) -> (r: String)
    ensures
        r@ == end_of_param_spec(path@),
{
    let v = str_to_chars(path);
    match find_char(&v, '/', 0) {
        Some(i) => {
            let s = chars_to_string(&v, i, v.len());
            proof {
                assert(v@.subrange(i as int, v@.len() as int) =~= v@.skip(i as int));
            }
            s
        },
        None => String::new(),
    }
}

/// Searching from `p + j` in `s` is searching from `j` in `s.skip(p)`.
pub proof fn lemma_find_shift(s: Seq<char>, c: char, p: int, j: int)
    requires
        0 <= p,
        0 <= j,
        p + j <= s.len(),
    ensures
        find_from(s, c, p + j) == match find_from(s.skip(p), c, j) {
            None => None::<int>,
            Some(k) => Some(k + p),
        },
    decreases s.len() - (p + j),
{
    if p + j == s.len() {
    } else {
        assert(s.skip(p)[j] == s[p + j]);
        if s[p + j] == c {
        } else {
            lemma_find_shift(s, c, p, j + 1);
        }
    }
}

/// Splits `s` in at most `n` pieces at `pat`; each piece after the first
/// keeps its leading separator. `from` is where the search for the next
/// separator starts inside the current piece.
pub open spec fn splitn_spec(s: Seq<char>, n: int, pat: char, from: int) -> Seq<Seq<char>>
    decreases n,
    when 0 <= from <= s.len()
{
    if n <= 1 {
        seq![s]
    } else {
        match find_from(s, pat, from) {
            None => seq![s],
            Some(i) => seq![s.take(i)] + splitn_spec(s.skip(i), n - 1, pat, 1),
        }
    }
}

fn splitn_go(v: &Vec<char>, pos: usize, n: usize, pat: char, from: usize) -> (r: Vec<String>)
    requires
        pos <= v@.len(),
        from <= 1,
        pos + from <= v@.len(),
    ensures
        r@.map_values(|x: String| x@) == splitn_spec(v@.skip(pos as int), n as int, pat, from as int),
    decreases n,
{
    let ghost tail = v@.skip(pos as int);
    if n <= 1 {
        let piece = chars_to_string(v, pos, v.len());
        let r = vec![piece];
        proof {
            assert(piece@ =~= tail);
            assert(r@.map_values(|x: String| x@) =~= seq![tail]);
        }
        return r;
    }
    proof {
        lemma_find_shift(v@, pat, pos as int, from as int);
    }
    let vl = v.len();
    proof {
        assert(pos + from <= vl);
    }
    match find_char(v, pat, pos + from) {
        None => {
            let piece = chars_to_string(v, pos, v.len());
            let r = vec![piece];
            proof {
                assert(piece@ =~= tail);
                assert(r@.map_values(|x: String| x@) =~= seq![tail]);
            }
            r
        },
        Some(i) => {
            let piece = chars_to_string(v, pos, i);
            let rest = splitn_go(v, i, n - 1, pat, 1);
            let mut r = rest;
            r.insert(0, piece);
            proof {
                let k = i - pos;
                assert(piece@ =~= tail.take(k as int));
                assert(v@.skip(i as int) =~= tail.skip(k as int));
                assert(r@.map_values(|x: String| x@) =~= seq![tail.take(k as int)]
                    + rest@.map_values(|x: String| x@));
            }
            r
        },
    }
}

/// Splits `s` in at most `n` pieces at `pat`. The separator is kept at the
/// head of the piece that follows it, as in `splitn("a/b", 2, '/')` giving
/// `["a", "/b"]`.
pub fn splitn(s: &str, n: usize, pat: char) -> (r: Vec<String>)
    ensures
        r@.map_values(|x: String| x@) == splitn_spec(s@, n as int, pat, 0),
{
    let v = str_to_chars(s);
    let r = splitn_go(&v, 0, n, pat, 0);
    proof {
        assert(v@.skip(0) =~= s@);
    }
    r
}

/// A depth-counting scan for top-level brace groups: `i` is the position,
/// `depth` the open-brace depth, `start` the opening position of the group
/// being read, `acc` the groups found so far. `None` means the braces never
/// balance out.
pub open spec fn brace_scan(
    p: Seq<char>,
    i: int,
    depth: int,
    start: int,
    acc: Seq<(int, int)>,
) -> Option<Seq<(int, int)>>
    decreases p.len() - i,
    when 0 <= i <= p.len()
{
    if i == p.len() {
        if depth == 0 {
            Some(acc)
        } else {
            None
        }
    } else if p[i] == '{' {
        if depth == 0 {
            brace_scan(p, i + 1, 1, i, acc)
        } else {
            brace_scan(p, i + 1, depth + 1, start, acc)
        }
    } else if p[i] == '}' {
        if depth == 0 {
            None
        } else if depth == 1 {
            brace_scan(p, i + 1, 0, start, acc.push((start, i + 1)))
        } else {
            brace_scan(p, i + 1, depth - 1, start, acc)
        }
    } else {
        brace_scan(p, i + 1, depth, start, acc)
    }
}

/// The `(start, end)` spans of the top-level brace groups of `p`, where
/// `end` points just past the closing brace; `None` when unbalanced.
pub open spec fn params_indices_spec(p: Seq<char>) -> Option<Seq<(int, int)>> {
    brace_scan(p, 0, 0, 0, Seq::empty())
}

/// Lists the `(start, end)` spans of the parameters of `path`: each span
/// runs from an opening `{` at top level to just past its matching `}`.
/// Unbalanced braces are reported as an error.
pub fn get_params_indices(path: &str) -> (r: Result<Vec<(usize, usize)>, Error>)
    ensures
        match params_indices_spec(path@) {
            Some(idxs) => r is Ok && r->Ok_0@.map_values(|q: (usize, usize)| (q.0 as int, q.1 as int))
                == idxs,
            None => r == Err::<Vec<(usize, usize)>, Error>(Error::UnbalancedBrace),
        },
{
    let v = str_to_chars(path);
    let mut acc: Vec<(usize, usize)> = Vec::new();
    let ghost mut gacc = Seq::<(int, int)>::empty();
    let mut i: usize = 0;
    let mut depth: usize = 0;
    let mut start: usize = 0;
    while i < v.len()
        invariant
            i <= v@.len(),
            depth <= i,
            start <= i,
            v@ == path@,
            gacc.len() == acc@.len(),
            forall|k: int|
                0 <= k < gacc.len() ==> gacc[k] == (acc@[k].0 as int, acc@[k].1 as int),
            params_indices_spec(path@) == brace_scan(
                v@,
                i as int,
                depth as int,
                start as int,
                gacc,
            ),
        decreases v@.len() - i,
    {
        let c = v[i];
        if c == '{' {
            if depth == 0 {
                start = i;
                depth = 1;
            } else {
                depth = depth + 1;
            }
        } else if c == '}' {
            if depth == 0 {
                return Err(Error::UnbalancedBrace);
            } else if depth == 1 {
                acc.push((start, i + 1));
                proof {
                    gacc = gacc.push((start as int, i as int + 1));
                }
                depth = 0;
            } else {
                depth = depth - 1;
            }
        }
        i = i + 1;
    }
    if depth == 0 {
        proof {
            assert(acc@.map_values(|q: (usize, usize)| (q.0 as int, q.1 as int)) =~= gacc);
        }
        Ok(acc)
    } else {
        Err(Error::UnbalancedBrace)
    }
}

/// The first `{` or `}` at or after `i` in `s`.
pub open spec fn find_brace_from(s: Seq<char>, i: int) -> Option<int>
    decreases s.len() - i,
    when 0 <= i <= s.len()
{
    if i == s.len() {
        None
    } else if s[i] == '{' || s[i] == '}' {
        Some(i)
    } else {
        find_brace_from(s, i + 1)
    }
}

fn find_brace(v: &Vec<char>, from: usize) -> (r: Option<usize>)
    requires
        from <= v@.len(),
    ensures
        match r {
            Some(j) => find_brace_from(v@, from as int) == Some(j as int) && from <= j
                < v@.len(),
            None => find_brace_from(v@, from as int) is None,
        },
{
    let mut i: usize = from;
    while i < v.len()
        invariant
            from <= i <= v@.len(),
            find_brace_from(v@, from as int) == find_brace_from(v@, i as int),
        decreases v@.len() - i,
    {
        let c = v[i];
        if c == '{' || c == '}' {
            return Some(i);
        }
        i = i + 1;
    }
    None
}

/// The position just past the brace that closes a group: scanning starts at
/// `i` inside a group already `depth` braces deep.
pub open spec fn brace_close(s: Seq<char>, i: int, depth: int) -> Option<int>
    decreases s.len() - i,
    when 0 <= i <= s.len()
{
    if i == s.len() {
        None
    } else if s[i] == '{' {
        brace_close(s, i + 1, depth + 1)
    } else if s[i] == '}' {
        if depth <= 1 {
            Some(i + 1)
        } else {
            brace_close(s, i + 1, depth - 1)
        }
    } else {
        brace_close(s, i + 1, depth)
    }
}

fn brace_close_at(v: &Vec<char>, from: usize) -> (r: Option<usize>)
    requires
        1 <= from <= v@.len(),
    ensures
        match r {
            Some(e) => brace_close(v@, from as int, 1) == Some(e as int) && from < e
                <= v@.len(),
            None => brace_close(v@, from as int, 1) is None,
        },
{
    let mut j: usize = from;
    let mut d: usize = 1;
    while j < v.len()
        invariant
            1 <= from <= j <= v@.len(),
            1 <= d,
            d <= 1 + j - from,
            brace_close(v@, from as int, 1) == brace_close(v@, j as int, d as int),
        decreases v@.len() - j,
    {
        let c = v[j];
        if c == '{' {
            d = d + 1;
        } else if c == '}' {
            if d == 1 {
                return Some(j + 1);
            }
            d = d - 1;
        }
        j = j + 1;
    }
    None
}

/// A segment of a parsed route pattern, as contracts see it: literal text,
/// or a parameter with its name and regex pattern.
pub enum SegV {
    Lit(Seq<char>),
    Par(Seq<char>, Seq<char>),
}

/// A segment of a parsed route pattern: literal text, or a named parameter
/// with its compiled regex constraint.
pub enum Segment {
    Lit(String),
    Par(String, ParamRegex),
}

impl View for Segment {
    type V = SegV;

    open spec fn view(&self) -> SegV {
        match self {
            Segment::Lit(t) => SegV::Lit(t@),
            Segment::Par(n, r) => SegV::Par(n@, r@),
        }
    }
}

/// The view of a segment list.
pub open spec fn segs_view(v: Seq<Segment>) -> Seq<SegV> {
    v.map_values(|s: Segment| s@)
}

/// The regex a parameter defaults to when none is written: one or more
/// characters.
pub open spec fn default_rx() -> Seq<char> {
    ".+"@
}

/// The name part of a parameter's content: what stands before the first
/// `:`, or all of it when there is none.
pub open spec fn param_name_spec(content: Seq<char>) -> Seq<char> {
    match find_from(content, ':', 0) {
        None => content,
        Some(k) => content.take(k),
    }
}

/// The regex part of a parameter's content: what stands after the first
/// `:`; when absent or empty, the default.
pub open spec fn param_rx_spec(content: Seq<char>) -> Seq<char> {
    match find_from(content, ':', 0) {
        None => default_rx(),
        Some(k) => if k + 1 == content.len() {
            default_rx()
        } else {
            content.skip(k + 1)
        },
    }
}

/// Scans `p` from `i` into segments: literal runs up to each top-level
/// brace group, and one parameter per group.
pub open spec fn segs_scan(p: Seq<char>, i: int) -> Result<Seq<SegV>, Error>
    decreases p.len() - i,
    when 0 <= i <= p.len()
{
    match find_brace_from(p, i) {
        None => if i < p.len() {
            Ok(seq![SegV::Lit(p.subrange(i, p.len() as int))])
        } else {
            Ok(Seq::empty())
        },
        Some(s) => if !(i <= s < p.len()) {
            // never the case: a brace found lies at or after `i` inside `p`
            Err(Error::UnbalancedBrace)
        } else if p[s] == '}' {
            Err(Error::UnbalancedBrace)
        } else {
            match brace_close(p, s + 1, 1) {
                None => Err(Error::UnbalancedBrace),
                Some(e) => if !(s + 2 <= e <= p.len()) {
                    // never the case: a close lies past its open and inside `p`
                    Err(Error::UnbalancedBrace)
                } else {
                    let content = p.subrange(s + 1, e - 1);
                    let name = param_name_spec(content);
                    let rxp = param_rx_spec(content);
                    if name.len() == 0 {
                        Err(Error::MissingNameOrPattern)
                    } else if !regex_compiles(rxp) {
                        Err(Error::InvalidRegex)
                    } else {
                        match segs_scan(p, e) {
                            Err(er) => Err(er),
                            Ok(rest) => Ok(
                                (if i < s {
                                    seq![SegV::Lit(p.subrange(i, s))]
                                } else {
                                    Seq::empty()
                                }) + seq![SegV::Par(name, rxp)] + rest,
                            ),
                        }
                    }
                },
            }
        },
    }
}

/// What parsing a whole route pattern yields: its segments, or the error
/// that rejects it. A pattern must begin with `/`.
pub open spec fn parse_spec(p: Seq<char>) -> Result<Seq<SegV>, Error> {
    if p.len() == 0 || p[0] != '/' {
        Err(Error::StartWithSlash)
    } else {
        segs_scan(p, 0)
    }
}

fn parse_go(v: &Vec<char>, i: usize) -> (r: Result<Vec<Segment>, Error>)
    requires
        i <= v@.len(),
    ensures
        match segs_scan(v@, i as int) {
            Ok(sv) => r is Ok && segs_view(r->Ok_0@) == sv,
            Err(e) => r == Err::<Vec<Segment>, Error>(e),
        },
    decreases v@.len() - i,
{
    let n = v.len();
    match find_brace(v, i) {
        None => {
            if i < v.len() {
                let text = chars_to_string(v, i, v.len());
                let out = vec![Segment::Lit(text)];
                proof {
                    assert(segs_view(out@) =~= seq![
                        SegV::Lit(v@.subrange(i as int, v@.len() as int)),
                    ]);
                }
                Ok(out)
            } else {
                let out: Vec<Segment> = Vec::new();
                proof {
                    assert(segs_view(out@) =~= Seq::<SegV>::empty());
                }
                Ok(out)
            }
        },
        Some(s) => {
            if v[s] == '}' {
                return Err(Error::UnbalancedBrace);
            }
            match brace_close_at(v, s + 1) {
                None => Err(Error::UnbalancedBrace),
                Some(e) => {
                    let ghost content = v@.subrange(s as int + 1, e as int - 1);
                    // search for the first `:` inside the parameter's content
                    let mut k: usize = s + 1;
                    while k < e - 1 && v[k] != ':'
                        invariant
                            s + 1 <= k <= e - 1,
                            e <= v@.len(),
                            s + 2 <= e,
                            content == v@.subrange(s as int + 1, e as int - 1),
                            find_from(content, ':', 0) == find_from(
                                content,
                                ':',
                                k - (s + 1),
                            ),
                        decreases e - k,
                    {
                        proof {
                            assert(content[k - (s + 1)] == v@[k as int]);
                        }
                        k = k + 1;
                    }
                    proof {
                        if k < e - 1 {
                            assert(content[k - (s + 1)] == v@[k as int]);
                            assert(find_from(content, ':', 0) == Some(k - (s + 1)));
                        } else {
                            assert(find_from(content, ':', 0) is None);
                        }
                    }
                    if k == s + 1 {
                        // the name before the (optional) `:` is empty
                        proof {
                            assert(param_name_spec(content).len() == 0);
                        }
                        return Err(Error::MissingNameOrPattern);
                    }
                    let name = chars_to_string(v, s + 1, k);
                    proof {
                        assert(name@ =~= param_name_spec(content));
                        assert(param_name_spec(content).len() > 0);
                    }
                    let rxs: String = if k < e - 1 && k + 1 < e - 1 {
                        let rx = chars_to_string(v, k + 1, e - 1);
                        proof {
                            assert(rx@ =~= content.skip(k + 1 - (s + 1)));
                        }
                        rx
                    } else {
                        ".+".to_owned()
                    };
                    proof {
                        assert(rxs@ == param_rx_spec(content));
                    }
                    let pr = match ParamRegex::compile(rxs.as_str()) {
                        Ok(pr) => pr,
                        Err(er) => {
                            return Err(er);
                        },
                    };
                    match parse_go(v, e) {
                        Err(er) => Err(er),
                        Ok(mut rest) => {
                            let mut out: Vec<Segment> = Vec::new();
                            if i < s {
                                let prefix = chars_to_string(v, i, s);
                                out.push(Segment::Lit(prefix));
                            }
                            out.push(Segment::Par(name, pr));
                            let ghost head = out@;
                            let ghost restv = rest@;
                            out.append(&mut rest);
                            proof {
                                assert(out@ == head + restv);
                                let sv = segs_scan(v@, i as int)->Ok_0;
                                assert(segs_view(out@) =~= sv);
                            }
                            Ok(out)
                        },
                    }
                },
            }
        },
    }
}

/// Parses a route pattern into its segments. The pattern must start with
/// `/`; parameters are brace groups whose content is `name` or
/// `name:regex`, the regex defaulting to `.+`. Each error of `Error` that
/// concerns pattern text is reported exactly when `parse_spec` says so.
pub fn parse_pattern(pattern: &str) -> (r: Result<Vec<Segment>, Error>)
    ensures
        match parse_spec(pattern@) {
            Ok(sv) => r is Ok && segs_view(r->Ok_0@) == sv,
            Err(e) => r == Err::<Vec<Segment>, Error>(e),
        },
{
    let v = str_to_chars(pattern);
    if v.len() == 0 {
        return Err(Error::StartWithSlash);
    }
    if v[0] != '/' {
        return Err(Error::StartWithSlash);
    }
    parse_go(&v, 0)
}

/// Where a found brace lies: at or after the search start, inside `p`.
pub proof fn lemma_find_brace_ge(p: Seq<char>, i: int)
    requires
        0 <= i <= p.len(),
    ensures
        match find_brace_from(p, i) {
            Some(s) => i <= s < p.len() && (p[s] == '{' || p[s] == '}'),
            None => true,
        },
    decreases p.len() - i,
{
    if i < p.len() && p[i] != '{' && p[i] != '}' {
        lemma_find_brace_ge(p, i + 1);
    }
}

/// In a parsed pattern, no two literal segments are adjacent and every
/// literal segment is nonempty.
pub open spec fn segs_wf(sv: Seq<SegV>) -> bool {
    &&& forall|k: int| 0 <= k < sv.len() - 1 && (#[trigger] sv[k]) is Lit ==> sv[k + 1] is Par
    &&& forall|k: int| 0 <= k < sv.len() && (#[trigger] sv[k]) is Lit ==> sv[k]->Lit_0.len() > 0
}

/// A successful scan yields a well-formed segment list; when it starts on
/// a character that is no brace, the list opens with that literal run.
pub proof fn lemma_segs_scan_wf(p: Seq<char>, i: int)
    requires
        0 <= i <= p.len(),
    ensures
        match segs_scan(p, i) {
            Ok(sv) => segs_wf(sv) && (i < p.len() && p[i] != '{' && p[i] != '}' ==> sv.len() > 0
                && sv[0] is Lit),
            Err(e) => true,
        },
    decreases p.len() - i,
{
    lemma_find_brace_ge(p, i);
    match find_brace_from(p, i) {
        None => {},
        Some(s) => {
            if i <= s < p.len() && p[s] == '{' {
                match brace_close(p, s + 1, 1) {
                    None => {},
                    Some(e) => {
                        if s + 2 <= e <= p.len() {
                            lemma_segs_scan_wf(p, e);
                            let content = p.subrange(s + 1, e - 1);
                            let name = param_name_spec(content);
                            let rxp = param_rx_spec(content);
                            if name.len() > 0 && regex_compiles(rxp) {
                                match segs_scan(p, e) {
                                    Err(_) => {},
                                    Ok(rest) => {
                                        let pre: Seq<SegV> = if i < s {
                                            seq![SegV::Lit(p.subrange(i, s))]
                                        } else {
                                            Seq::empty()
                                        };
                                        let sv = pre + seq![SegV::Par(name, rxp)] + rest;
                                        assert(segs_scan(p, i) == Ok::<Seq<SegV>, Error>(sv));
                                        let m = pre.len() as int;
                                        assert(forall|k: int|
                                            0 <= k < rest.len() ==> sv[m + 1 + k] == rest[k]);
                                        assert(sv[m] is Par);
                                        assert forall|k: int|
                                            0 <= k < sv.len() - 1 && (#[trigger] sv[k]) is Lit
                                            implies sv[k + 1] is Par by {
                                            if k < m {
                                                assert(sv[k + 1] == SegV::Par(name, rxp));
                                            } else if k == m {
                                            } else {
                                                assert(sv[k] == rest[k - m - 1]);
                                                assert(sv[k + 1] == rest[k - m]);
                                                assert(segs_wf(rest));
                                            }
                                        }
                                        assert forall|k: int|
                                            0 <= k < sv.len() && (#[trigger] sv[k]) is Lit
                                            implies sv[k]->Lit_0.len() > 0 by {
                                            if k < m {
                                                assert(sv[k] == SegV::Lit(p.subrange(i, s)));
                                            } else if k == m {
                                            } else {
                                                assert(sv[k] == rest[k - m - 1]);
                                                assert(segs_wf(rest));
                                            }
                                        }
                                    },
                                }
                            }
                        }
                    },
                }
            }
        },
    }
}

/// After a parameter, insertion resumes at the next `/` boundary: segments
/// are dropped up to the first literal holding a `/`, which is trimmed to
/// start there; with no such literal nothing remains.
pub open spec fn after_slash_spec(segs: Seq<SegV>, si: int) -> (Seq<char>, int)
    decreases segs.len() - si,
    when 0 <= si <= segs.len()
{
    if si == segs.len() {
        (Seq::<char>::empty(), si)
    } else {
        match segs[si] {
            SegV::Lit(t) => match find_from(t, '/', 0) {
                Some(k) => (t.skip(k), si + 1),
                None => after_slash_spec(segs, si + 1),
            },
            SegV::Par(_n, _r) => after_slash_spec(segs, si + 1),
        }
    }
}

/// Where `after_slash_spec` lands: at worst the end of the segments, and
/// always just past a literal when anything remains before the end.
pub proof fn lemma_after_slash_bounds(segs: Seq<SegV>, si: int)
    requires
        0 <= si <= segs.len(),
    ensures
        si <= after_slash_spec(segs, si).1 <= segs.len(),
        after_slash_spec(segs, si).1 < segs.len() ==> after_slash_spec(segs, si).1 > 0 && segs[
            after_slash_spec(segs, si).1 - 1
        ] is Lit,
    decreases segs.len() - si,
{
    if si < segs.len() {
        match segs[si] {
            SegV::Lit(t) => {
                if find_from(t, '/', 0) is None {
                    lemma_after_slash_bounds(segs, si + 1);
                }
            },
            SegV::Par(_n, _r) => {
                lemma_after_slash_bounds(segs, si + 1);
            },
        }
    }
}

/// Walks the segments from `si` to the next `/` boundary, as
/// `after_slash_spec` describes.
pub fn after_slash(segs: &Vec<Segment>, si: usize) -> (r: (Vec<char>, usize))
    requires
        si <= segs@.len(),
    ensures
        ({
            let sp = after_slash_spec(segs_view(segs@), si as int);
            r.1 == sp.1 && r.0@ == sp.0 && si <= r.1 <= segs@.len()
        }),
    decreases segs@.len() - si,
{
    proof {
        assert(segs_view(segs@).len() == segs@.len());
    }
    if si == segs.len() {
        let r: Vec<char> = Vec::new();
        proof {
            assert(r@ =~= Seq::<char>::empty());
        }
        (r, si)
    } else {
        proof {
            assert(segs_view(segs@)[si as int] == segs@[si as int]@);
        }
        match &segs[si] {
            Segment::Lit(t) => {
                let tv = str_to_chars(t.as_str());
                match find_char(&tv, '/', 0) {
                    Some(k) => {
                        let rem = chars_slice(&tv, k, tv.len());
                        proof {
                            assert(rem@ =~= t@.skip(k as int));
                        }
                        (rem, si + 1)
                    },
                    None => after_slash(segs, si + 1),
                }
            },
            Segment::Par(_n, _r) => after_slash(segs, si + 1),
        }
    }
}


/// A match never runs past either string.
pub proof fn lemma_match_len_le(a: Seq<char>, b: Seq<char>)
    ensures
        match_len_spec(a, b) <= a.len(),
        match_len_spec(a, b) <= b.len(),
    decreases a.len(),
{
    if a.len() > 0 && b.len() > 0 && a[0] == b[0] && b[0] != '{' {
        lemma_match_len_le(a.skip(1), b.skip(1));
    }
}

/// Within the matched prefix the strings agree, brace-free on the right.
pub proof fn lemma_match_len_agree(a: Seq<char>, b: Seq<char>)
    ensures
        forall|j: int|
            0 <= j < match_len_spec(a, b) ==> a[j] == b[j] && b[j] != '{',
    decreases a.len(),
{
    lemma_match_len_le(a, b);
    if a.len() > 0 && b.len() > 0 && a[0] == b[0] && b[0] != '{' {
        lemma_match_len_agree(a.skip(1), b.skip(1));
        assert forall|j: int|
            0 <= j < match_len_spec(a, b) implies a[j] == b[j] && b[j] != '{' by {
            if j > 0 {
                assert(a.skip(1)[j - 1] == a[j]);
                assert(b.skip(1)[j - 1] == b[j]);
            }
        }
    }
}

/// Where the match stops short of both ends, the next characters disagree
/// (or a `{` stands on the right).
pub proof fn lemma_match_len_stop(a: Seq<char>, b: Seq<char>)
    ensures
        ({
            let ml = match_len_spec(a, b) as int;
            ml < a.len() && ml < b.len() ==> !(a[ml] == b[ml] && b[ml] != '{')
        }),
    decreases a.len(),
{
    if a.len() > 0 && b.len() > 0 && a[0] == b[0] && b[0] != '{' {
        lemma_match_len_stop(a.skip(1), b.skip(1));
        let ml = match_len_spec(a, b) as int;
        if ml < a.len() && ml < b.len() {
            assert(a.skip(1)[ml - 1] == a[ml]);
            assert(b.skip(1)[ml - 1] == b[ml]);
        }
    }
}

/// A brace-free string fully matches itself.
pub proof fn lemma_match_len_self(a: Seq<char>)
    requires
        forall|i: int| 0 <= i < a.len() ==> a[i] != '{',
    ensures
        match_len_spec(a, a) == a.len(),
    decreases a.len(),
{
    if a.len() > 0 {
        assert(forall|i: int| 0 <= i < a.skip(1).len() ==> a.skip(1)[i] == a[i + 1]);
        lemma_match_len_self(a.skip(1));
    }
}

/// In a brace-free stretch no brace is found.
pub proof fn lemma_find_brace_none(p: Seq<char>, i: int)
    requires
        0 <= i <= p.len(),
        forall|k: int| i <= k < p.len() ==> p[k] != '{' && p[k] != '}',
    ensures
        find_brace_from(p, i) is None,
    decreases p.len() - i,
{
    if i < p.len() {
        lemma_find_brace_none(p, i + 1);
    }
}

/// A string without brace characters: a purely literal route pattern.
pub open spec fn brace_free(s: Seq<char>) -> bool {
    forall|i: int| 0 <= i < s.len() ==> s[i] != '{' && s[i] != '}'
}

/// A brace-free pattern starting with `/` parses as one literal segment.
pub proof fn lemma_parse_literal(p: Seq<char>)
    requires
        p.len() > 0,
        p[0] == '/',
        forall|k: int| 0 <= k < p.len() ==> p[k] != '{' && p[k] != '}',
    ensures
        parse_spec(p) == Ok::<Seq<SegV>, Error>(seq![SegV::Lit(p)]),
{
    lemma_find_brace_none(p, 0);
    assert(p.subrange(0, p.len() as int) =~= p);
}


/// Truncating the left side caps the match at the truncation point.
pub proof fn lemma_match_len_take(a: Seq<char>, b: Seq<char>, m: int)
    requires
        0 <= m <= a.len(),
    ensures
        match_len_spec(a.take(m), b) == if m <= match_len_spec(a, b) {
            m as nat
        } else {
            match_len_spec(a, b)
        },
    decreases a.len(),
{
    if m > 0 && a.len() > 0 && b.len() > 0 && a[0] == b[0] && b[0] != '{' {
        assert(a.take(m)[0] == a[0]);
        lemma_match_len_take(a.skip(1), b.skip(1), m - 1);
        assert(a.take(m).skip(1) =~= a.skip(1).take(m - 1));
    } else if m == 0 {
        assert(a.take(0) =~= Seq::<char>::empty());
    }
}

/// Skipping the matched front shortens the match by as much.
pub proof fn lemma_match_len_skip(a: Seq<char>, b: Seq<char>, m: int)
    requires
        0 <= m <= match_len_spec(a, b),
    ensures
        match_len_spec(a.skip(m), b.skip(m)) == match_len_spec(a, b) - m,
    decreases m,
{
    lemma_match_len_le(a, b);
    if m == 0 {
        assert(a.skip(0) =~= a);
        assert(b.skip(0) =~= b);
    } else {
        assert(a.len() > 0 && b.len() > 0 && a[0] == b[0] && b[0] != '{');
        lemma_match_len_skip(a.skip(1), b.skip(1), m - 1);
        assert(a.skip(1).skip(m - 1) =~= a.skip(m));
        assert(b.skip(1).skip(m - 1) =~= b.skip(m));
    }
}

} // verus!\n