use vstd::prelude::*;

use crate::text::{
    chars_of, contains_string, dedup, slice_is, split, split_chars, string_of, v_slice,
};

verus! {

/// Why an index could not be turned into an ordered list of sources.
#[derive(Debug, Clone)]
pub enum PkgError {
    /// A paragraph holds a line that is not `Field: value`; carries the paragraph.
    Malformed(String),
    /// The record at this position of the parsed sequence has no `Package` field.
    MissingName(usize),
    /// These packages never had all of their internal dependencies placed.
    Cycle(Vec<String>),
}

/// One binary package of a Debian package index.
#[derive(Debug, Clone)]
pub struct Pkg {
    /// package name
    pub name: String,
    /// package version
    pub version: Option<String>,
    /// source package it was built from
    pub source: Option<String>,
    /// package homepage
    pub homepage: Option<String>,
    /// declared dependencies, bare names, each once
    pub deps: Vec<String>,
    /// the dependencies that are packages of the same index
    pub int_deps: Vec<String>,
}

/// The mathematical content of a `Pkg`.
pub struct PkgView {
    pub name: Seq<char>,
    pub version: Option<Seq<char>>,
    pub source: Option<Seq<char>>,
    pub homepage: Option<Seq<char>>,
    pub deps: Seq<Seq<char>>,
    pub int_deps: Seq<Seq<char>>,
}

pub open spec fn opt_view(o: Option<String>) -> Option<Seq<char>> {
    match o {
        Some(s) => Some(s@),
        None => None,
    }
}

impl View for Pkg {
    type V = PkgView;

    open spec fn view(&self) -> PkgView {
        PkgView {
            name: self.name@,
            version: opt_view(self.version),
            source: opt_view(self.source),
            homepage: opt_view(self.homepage),
            deps: self.deps.deep_view(),
            int_deps: self.int_deps.deep_view(),
        }
    }
}

/// The record of a paragraph with no known field.
pub open spec fn empty_view() -> PkgView {
    PkgView {
        name: Seq::empty(),
        version: None,
        source: None,
        homepage: None,
        deps: Seq::empty(),
        int_deps: Seq::empty(),
    }
}

// ---------------------------------------------------------------- fields
/// An ASCII letter or digit.
pub open spec fn is_alnum(c: char) -> bool {
    ('a' <= c && c <= 'z') || ('A' <= c && c <= 'Z') || ('0' <= c && c <= '9')
}

/// The end of the run of letters and digits that starts at `i`.
pub open spec fn run_end(s: Seq<char>, i: int) -> int
    decreases s.len() - i,
{
    if 0 <= i < s.len() && is_alnum(s[i]) {
        run_end(s, i + 1)
    } else {
        i
    }
}

/// A field name starts at `i`: letters and digits, then `": "`.
pub open spec fn field_starts(s: Seq<char>, i: int) -> bool {
    &&& 0 <= i < s.len()
    &&& is_alnum(s[i])
    &&& run_end(s, i) + 1 < s.len()
    &&& s[run_end(s, i)] == ':'
    &&& s[run_end(s, i) + 1] == ' '
}

/// The first index at or after `i` where a field name starts, or -1.
pub open spec fn first_field(s: Seq<char>, i: int) -> int
    decreases s.len() - i,
{
    if i < 0 || i >= s.len() {
        -1
    } else if field_starts(s, i) {
        i
    } else {
        first_field(s, i + 1)
    }
}

/// The field name and value of a logical line: the leftmost name followed by
/// `": "`, and everything after that separator. `None` when there is none.
pub open spec fn field_of(s: Seq<char>) -> Option<(Seq<char>, Seq<char>)> {
    let i = first_field(s, 0);
    if i < 0 {
        None
    } else {
        Some((s.subrange(i, run_end(s, i)), s.subrange(run_end(s, i) + 2, s.len() as int)))
    }
}

fn is_alnum_char(c: char) -> (r: bool)
    ensures
        r == is_alnum(c),
{
    ('a' <= c && c <= 'z') || ('A' <= c && c <= 'Z') || ('0' <= c && c <= '9')
}

proof fn lemma_first_field_bounds(s: Seq<char>, i: int)
    ensures
        first_field(s, i) == -1 || (i <= first_field(s, i) && field_starts(s, first_field(s, i))),
    decreases s.len() - i,
{
    if 0 <= i < s.len() && !field_starts(s, i) {
        lemma_first_field_bounds(s, i + 1);
    }
}

proof fn lemma_run_end_bounds(s: Seq<char>, i: int)
    requires
        0 <= i <= s.len(),
    ensures
        i <= run_end(s, i) <= s.len(),
    decreases s.len() - i,
{
    if i < s.len() && is_alnum(s[i]) {
        lemma_run_end_bounds(s, i + 1);
    }
}

/// Where the field name of `line` starts and ends.
fn find_field(line: &Vec<char>) -> (r: Option<(usize, usize)>)
    ensures
        match r {
            None => first_field(line@, 0) == -1,
            Some((i, e)) => first_field(line@, 0) == i as int && run_end(line@, i as int) == e as int,
        },
{
    let n = line.len();
    let mut i: usize = 0;
    while i < n
        invariant
            n == line@.len(),
            i <= n,
            first_field(line@, 0) == first_field(line@, i as int),
        decreases n - i,
    {
        if !is_alnum_char(line[i]) {
            i += 1;
        } else {
            let mut e = i;
            while e < n && is_alnum_char(line[e])
                invariant
                    i <= e <= n == line@.len(),
                    run_end(line@, e as int) == run_end(line@, i as int),
                decreases n - e,
            {
                e += 1;
            }
            if e < n && e + 1 < n && line[e] == ':' && line[e + 1] == ' ' {
                return Some((i, e));
            }
            let ghost end = e;
            let mut k = i;
            while k < e
                invariant
                    i <= k <= e == end <= n == line@.len(),
                    k < e ==> run_end(line@, k as int) == e,
                    first_field(line@, 0) == first_field(line@, k as int),
                    !(e + 1 < n && line@[e as int] == ':' && line@[e + 1] == ' '),
                decreases e - k,
            {
                k += 1;
                proof {
                    if k < e {
                        assert(run_end(line@, k as int) == e);
                    }
                }
            }
            i = e;
        }
    }
    None
}

// ---------------------------------------------------------------- dependencies
/// A dependency token may be cut at `k`: the end, an architecture qualifier
/// `:...`, or a trailing version constraint ` (...)`.
pub open spec fn cut_at(t: Seq<char>, k: int) -> bool {
    ||| k == t.len()
    ||| (0 <= k < t.len() && t[k] == ':')
    ||| (0 <= k && k + 3 <= t.len() && t[k] == ' ' && t[k + 1] == '(' && t.last() == ')')
}

/// The first index at or after `i` where `t` may be cut.
pub open spec fn first_cut(t: Seq<char>, i: int) -> int
    decreases t.len() - i,
{
    if i < 0 || i >= t.len() || cut_at(t, i) {
        if 0 <= i <= t.len() { i } else { t.len() as int }
    } else {
        first_cut(t, i + 1)
    }
}

/// The bare name of a dependency token.
pub open spec fn dep_name(t: Seq<char>) -> Seq<char> {
    t.take(first_cut(t, 0))
}

/// The dependency list of a `Depends` value: tokens between `", "`, stripped,
/// each name once in order of first appearance.
pub open spec fn deps_of(value: Seq<char>) -> Seq<Seq<char>> {
    dedup(split(value, seq![',', ' ']).map_values(|t: Seq<char>| dep_name(t)))
}

fn cuts_at(t: &Vec<char>, k: usize) -> (r: bool)
    requires
        k < t@.len(),
    ensures
        r == cut_at(t@, k as int),
{
    let n = t.len();
    t[k] == ':' || (n - k >= 3 && t[k] == ' ' && t[k + 1] == '(' && t[n - 1] == ')')
}

/// The bare name of the dependency token `t`.
fn strip_dep(t: &Vec<char>) -> (r: String)
    ensures
        r@ == dep_name(t@),
{
    let n = t.len();
    let mut k: usize = 0;
    while k < n && !cuts_at(t, k)
        invariant
            k <= n == t@.len(),
            first_cut(t@, 0) == first_cut(t@, k as int),
        decreases n - k,
    {
        k += 1;
    }
    string_of(t, 0, k)
}

impl Pkg {
    /// Sets the dependency list from the value of a `Depends` field.
    pub fn add_dependencies(&mut self, deps_string: String)
        ensures
            final(self)@ == (PkgView { deps: deps_of(deps_string@), ..old(self)@ }),
    {
        let text = chars_of(deps_string.as_str());
        let sep = vec![',', ' '];
        assert(sep@ =~= seq![',', ' ']);
        let tokens = split_chars(&text, &sep);
        let ghost names = split(text@, seq![',', ' ']).map_values(|t: Seq<char>| dep_name(t));
        let mut deps: Vec<String> = Vec::new();
        let mut i: usize = 0;
        while i < tokens.len()
            invariant
                i <= tokens@.len(),
                tokens@.map_values(|p: Vec<char>| p@) == split(text@, seq![',', ' ']),
                names == split(text@, seq![',', ' ']).map_values(|t: Seq<char>| dep_name(t)),
                deps.deep_view() == dedup(names.take(i as int)),
            decreases tokens@.len() - i,
        {
            let name = strip_dep(&tokens[i]);
            assert(tokens@.map_values(|p: Vec<char>| p@)[i as int] == tokens@[i as int]@);
            assert(names[i as int] == name@);
            assert(names.take(i + 1).drop_last() =~= names.take(i as int));
            if !contains_string(&deps, &name) {
                let ghost before = deps.deep_view();
                deps.push(name);
                assert(deps.deep_view() =~= before.push(names[i as int]));
            }
            i += 1;
        }
        assert(names.take(i as int) =~= names);
        self.deps = deps;
    }
}

// ---------------------------------------------------------------- records
/// The record after one `name: value` field: the five known names set their
/// attribute, last one wins; any other name leaves the record as it is.
pub open spec fn apply_field(p: PkgView, key: Seq<char>, value: Seq<char>) -> PkgView {
    if key == "Package"@ {
        PkgView { name: value, ..p }
    } else if key == "Depends"@ {
        PkgView { deps: deps_of(value), ..p }
    } else if key == "Homepage"@ {
        PkgView { homepage: Some(value), ..p }
    } else if key == "Version"@ {
        PkgView { version: Some(value), ..p }
    } else if key == "Source"@ {
        PkgView { source: Some(value), ..p }
    } else {
        p
    }
}

/// The record that logical lines describe; `None` when one of them holds no field.
pub open spec fn apply_lines(lines: Seq<Seq<char>>) -> Option<PkgView>
    decreases lines.len(),
{
    if lines.len() == 0 {
        Some(empty_view())
    } else {
        match (apply_lines(lines.drop_last()), field_of(lines.last())) {
            (Some(p), Some((k, v))) => Some(apply_field(p, k, v)),
            _ => None,
        }
    }
}

/// The record that a non-empty paragraph describes; `None` when it is malformed.
pub open spec fn record_of(s: Seq<char>) -> Option<PkgView> {
    match logical_lines_of(s) {
        Some(lines) => apply_lines(lines),
        None => None,
    }
}

proof fn lemma_apply_none_stays(lines: Seq<Seq<char>>, i: int)
    requires
        0 <= i <= lines.len(),
        apply_lines(lines.take(i)) is None,
    ensures
        apply_lines(lines) is None,
    decreases lines.len() - i,
{
    if i < lines.len() {
        assert(lines.take(i + 1).drop_last() =~= lines.take(i));
        lemma_apply_none_stays(lines, i + 1);
    } else {
        assert(lines.take(i) =~= lines);
    }
}

impl Pkg {
    /// Parses one paragraph of a package index. `Ok(None)` for the empty
    /// string; an error carrying the paragraph when it starts with a
    /// continuation or a logical line holds no `Field: value`.
    pub fn new(pkg_string: &str) -> (r: Result<Option<Pkg>, PkgError>)
        ensures
            match r {
                Ok(None) => pkg_string@.len() == 0,
                Ok(Some(p)) => pkg_string@.len() > 0 && record_of(pkg_string@) == Some(p@),
                Err(e) => pkg_string@.len() > 0 && record_of(pkg_string@) is None && (match e {
                    PkgError::Malformed(t) => t@ == pkg_string@,
                    _ => false,
                }),
            },
    {
        let text = chars_of(pkg_string);
        if text.len() == 0 {
            return Ok(None);
        }
        let folded = match fold_chars(&split_lines(&text)) {
            Some(v) => v,
            None => {
                return Err(PkgError::Malformed(pkg_string.to_owned()));
            },
        };
        let ghost lines = views(folded@);
        let mut pkg = Pkg {
            name: String::new(),
            version: None,
            source: None,
            homepage: None,
            deps: Vec::new(),
            int_deps: Vec::new(),
        };
        assert(pkg@.deps =~= Seq::<Seq<char>>::empty());
        assert(pkg@.int_deps =~= Seq::<Seq<char>>::empty());
        let mut i: usize = 0;
        while i < folded.len()
            invariant
                i <= folded@.len(),
                pkg_string@.len() > 0,
                lines == views(folded@),
                logical_lines_of(pkg_string@) == Some(lines),
                apply_lines(lines.take(i as int)) == Some(pkg@),
            decreases folded@.len() - i,
        {
            let line = &folded[i];
            assert(lines.take(i + 1).drop_last() =~= lines.take(i as int));
            assert(lines[i as int] == line@);
            match find_field(line) {
                None => {
                    assert(apply_lines(lines.take(i + 1)) is None);
                    proof { lemma_apply_none_stays(lines, i + 1); }
                    return Err(PkgError::Malformed(pkg_string.to_owned()));
                },
                Some((b, e)) => {
                    proof {
                        lemma_first_field_bounds(line@, 0);
                        lemma_run_end_bounds(line@, b as int);
                    }
                    let n = line.len();
                    let value = string_of(line, e + 2, n);
                    if slice_is(line, b, e, "Package") {
                        pkg.name = value;
                    } else if slice_is(line, b, e, "Depends") {
                        pkg.add_dependencies(value);
                    } else if slice_is(line, b, e, "Homepage") {
                        pkg.homepage = Some(value);
                    } else if slice_is(line, b, e, "Version") {
                        pkg.version = Some(value);
                    } else if slice_is(line, b, e, "Source") {
                        pkg.source = Some(value);
                    }
                },
            }
            i += 1;
        }
        assert(lines.take(i as int) =~= lines);
        Ok(Some(pkg))
    }
}

// ---------------------------------------------------------------- folding
/// The character sequences held by a sequence of character vectors.
pub open spec fn views(v: Seq<Vec<char>>) -> Seq<Seq<char>> {
    Seq::new(v.len(), |i: int| v[i]@)
}

/// Physical lines folded into logical ones: the content of a line that starts
/// with a space (the line without that space) is appended, after one space, to
/// the logical line before it; an empty line adds
/// nothing; any other line starts a new logical line. `None` when a
/// continuation has no line before it.
pub open spec fn fold(lines: Seq<Seq<char>>) -> Option<Seq<Seq<char>>>
    decreases lines.len(),
{
    if lines.len() == 0 {
        Some(Seq::empty())
    } else {
        match fold(lines.drop_last()) {
            None => None,
            Some(acc) => {
                let l = lines.last();
                if l.len() == 0 {
                    Some(acc)
                } else if l[0] == ' ' {
                    if acc.len() == 0 {
                        None
                    } else {
                        Some(
                            acc.update(
                                acc.len() - 1,
                                acc.last() + seq![' '] + l.subrange(1, l.len() as int),
                            ),
                        )
                    }
                } else {
                    Some(acc.push(l))
                }
            },
        }
    }
}

/// The logical lines of a paragraph.
pub open spec fn logical_lines_of(s: Seq<char>) -> Option<Seq<Seq<char>>> {
    fold(split(s, seq!['\n']))
}

fn fold_chars(lines: &Vec<Vec<char>>) -> (r: Option<Vec<Vec<char>>>)
    ensures
        match r {
            Some(v) => fold(views(lines@)) == Some(views(v@)),
            None => fold(views(lines@)) is None,
        },
{
    let mut acc: Vec<Vec<char>> = Vec::new();
    let mut i: usize = 0;
    while i < lines.len()
        invariant
            i <= lines@.len(),
            fold(views(lines@).take(i as int)) == Some(views(acc@)),
        decreases lines@.len() - i,
    {
        let ghost before = views(acc@);
        assert(views(lines@).take(i + 1).drop_last() =~= views(lines@).take(i as int));
        let line = &lines[i];
        if line.len() == 0 {
        } else if line[0] == ' ' {
            if acc.len() == 0 {
                assert(fold(views(lines@).take(i + 1)) is None);
                proof { lemma_fold_none_stays(views(lines@), i as int + 1); }
                assert(views(lines@).take(lines@.len() as int) =~= views(lines@));
                return None;
            }
            let mut last = acc.pop().unwrap();
            last.push(' ');
            let mut k: usize = 1;
            assert(line@.subrange(1, 1) =~= Seq::<char>::empty());
            assert(last@ =~= before.last() + seq![' '] + line@.subrange(1, 1));
            while k < line.len()
                invariant
                    1 <= k <= line@.len(),
                    last@ == before.last() + seq![' '] + line@.subrange(1, k as int),
                decreases line@.len() - k,
            {
                last.push(line[k]);
                k += 1;
                assert(last@ =~= before.last() + seq![' '] + line@.subrange(1, k as int));
            }
            acc.push(last);
            assert(views(acc@) =~= before.update(
                before.len() - 1,
                before.last() + seq![' '] + line@.subrange(1, line@.len() as int),
            ));
        } else {
            acc.push(v_slice(line, 0, line.len()));
            assert(line@.subrange(0, line@.len() as int) =~= line@);
            assert(views(acc@) =~= before.push(line@));
        }
        i += 1;
    }
    assert(views(lines@).take(i as int) =~= views(lines@));
    Some(acc)
}

proof fn lemma_fold_none_stays(lines: Seq<Seq<char>>, i: int)
    requires
        0 <= i <= lines.len(),
        fold(lines.take(i)) is None,
    ensures
        fold(lines.take(lines.len() as int)) is None,
    decreases lines.len() - i,
{
    if i < lines.len() {
        assert(lines.take(i + 1).drop_last() =~= lines.take(i));
        lemma_fold_none_stays(lines, i + 1);
    }
}

fn strings_of(v: &Vec<Vec<char>>) -> (r: Vec<String>)
    ensures
        r.deep_view() == views(v@),
{
    let mut out: Vec<String> = Vec::new();
    let mut i: usize = 0;
    while i < v.len()
        invariant
            i <= v@.len(),
            out.deep_view() == views(v@).take(i as int),
        decreases v@.len() - i,
    {
        let s = string_of(&v[i], 0, v[i].len());
        assert(v[i as int]@.subrange(0, v[i as int]@.len() as int) =~= v[i as int]@);
        let ghost before = out.deep_view();
        out.push(s);
        assert(out.deep_view() =~= before.push(s@));
        i += 1;
        assert(out.deep_view() =~= views(v@).take(i as int));
    }
    assert(views(v@).take(i as int) =~= views(v@));
    out
}

/// The logical lines of `paragraph`, or `None` when it starts with a
/// continuation line.
pub fn logical_lines(paragraph: &str) -> (r: Option<Vec<String>>)
    ensures
        match r {
            Some(v) => logical_lines_of(paragraph@) == Some(v.deep_view()),
            None => logical_lines_of(paragraph@) is None,
        },
{
    let text = chars_of(paragraph);
    let lines = split_lines(&text);
    match fold_chars(&lines) {
        Some(v) => Some(strings_of(&v)),
        None => None,
    }
}

fn split_lines(text: &Vec<char>) -> (r: Vec<Vec<char>>)
    ensures
        views(r@) == split(text@, seq!['\n']),
{
    let sep = vec!['\n'];
    assert(sep@ =~= seq!['\n']);
    let r = split_chars(text, &sep);
    assert(views(r@) =~= r@.map_values(|p: Vec<char>| p@));
    r
}

} // verus!
