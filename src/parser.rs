//! The directive grammar of environment files.

use vstd::prelude::*;
use vstd::std_specs::iter::IteratorSpec;

verus! {

// ---------------------------------------------------------------------------
// Character classes and text shapes
// ---------------------------------------------------------------------------
/// Unicode's `White_Space` property, as `char::is_whitespace` has it.
pub open spec fn is_ws(c: char) -> bool {
    let u = c as u32;
    (0x09 <= u && u <= 0x0D) || u == 0x20 || u == 0x85 || u == 0xA0 || u == 0x1680 || (0x2000
        <= u && u <= 0x200A) || u == 0x2028 || u == 0x2029 || u == 0x202F || u == 0x205F || u
        == 0x3000
}

/// `s` without its leading whitespace.
pub open spec fn trim_start(s: Seq<char>) -> Seq<char>
    decreases s.len(),
{
    if s.len() > 0 && is_ws(s[0]) {
        trim_start(s.drop_first())
    } else {
        s
    }
}

/// `s` without its trailing whitespace.
pub open spec fn trim_end(s: Seq<char>) -> Seq<char>
    decreases s.len(),
{
    if s.len() > 0 && is_ws(s.last()) {
        trim_end(s.drop_last())
    } else {
        s
    }
}

/// `s` without surrounding whitespace.
pub open spec fn trim(s: Seq<char>) -> Seq<char> {
    trim_end(trim_start(s))
}

/// The maximal runs of non-whitespace characters of `s`, in order.
pub open spec fn words(s: Seq<char>) -> Seq<Seq<char>>
    decreases s.len(),
{
    if s.len() == 0 {
        seq![]
    } else {
        let w = words(s.drop_last());
        let c = s.last();
        if is_ws(c) {
            w
        } else if s.len() >= 2 && !is_ws(s[s.len() - 2]) {
            w.drop_last().push(w.last().push(c))
        } else {
            w.push(seq![c])
        }
    }
}

/// The lines of `s`: the pieces between its `'\n'` characters.
pub open spec fn lines_of(s: Seq<char>) -> Seq<Seq<char>>
    decreases s.len(),
{
    if s.len() == 0 {
        seq![seq![]]
    } else {
        let ls = lines_of(s.drop_last());
        if s.last() == '\n' {
            ls.push(seq![])
        } else {
            ls.drop_last().push(ls.last().push(s.last()))
        }
    }
}

pub open spec fn starts_with(s: Seq<char>, p: Seq<char>) -> bool {
    p.len() <= s.len() && s.subrange(0, p.len() as int) == p
}

/// `<(` stands at position `i` of `s`.
pub open spec fn opens_at(s: Seq<char>, i: int) -> bool {
    0 <= i && i + 1 < s.len() && s[i] == '<' && s[i + 1] == '('
}

pub open spec fn has_open(s: Seq<char>) -> bool {
    exists|i: int| opens_at(s, i)
}

pub open spec fn is_first_open(s: Seq<char>, i: int) -> bool {
    opens_at(s, i) && forall|j: int| 0 <= j < i ==> !opens_at(s, j)
}

/// The position of the first `<(` of `s`.
pub open spec fn first_open(s: Seq<char>) -> int {
    choose|i: int| is_first_open(s, i)
}

/// `)` stands at position `i` of `s`.
pub open spec fn closes_at(s: Seq<char>, i: int) -> bool {
    0 <= i < s.len() && s[i] == ')'
}

pub open spec fn has_close(s: Seq<char>) -> bool {
    exists|i: int| closes_at(s, i)
}

pub open spec fn is_last_close(s: Seq<char>, i: int) -> bool {
    closes_at(s, i) && forall|j: int| i < j < s.len() ==> !closes_at(s, j)
}

/// The position of the last `)` of `s`.
pub open spec fn last_close(s: Seq<char>) -> int {
    choose|i: int| is_last_close(s, i)
}

/// The first word of `l` is `kw`.
pub open spec fn first_word_is(l: Seq<char>, kw: Seq<char>) -> bool {
    words(l).len() > 0 && words(l)[0] == kw
}

pub open spec fn source_keyword() -> Seq<char> {
    seq!['s', 'o', 'u', 'r', 'c', 'e']
}

pub open spec fn venv_keyword() -> Seq<char> {
    seq!['p', 'y', 't', 'h', 'o', 'n', '_', 'v', 'e', 'n', 'v']
}

/// The environment directory that `python_venv` without argument names.
pub open spec fn default_venv() -> Seq<char> {
    seq!['.', 'v', 'e', 'n', 'v']
}

// ---------------------------------------------------------------------------
// Directives and errors
// ---------------------------------------------------------------------------
/// One directive of an environment file.
#[derive(Debug, Clone, PartialEq)]
pub enum Command {
    /// `source <file>`
    Source { path: String },
    /// `python_venv [path]`
    PythonVenv { path: String },
    /// `source <(command)`
    ProcessSubstitution { command: String },
}

pub enum CommandView {
    Source { path: Seq<char> },
    PythonVenv { path: Seq<char> },
    ProcessSubstitution { command: Seq<char> },
}

impl View for Command {
    type V = CommandView;

    open spec fn view(&self) -> CommandView {
        match self {
            Command::Source { path } => CommandView::Source { path: path@ },
            Command::PythonVenv { path } => CommandView::PythonVenv { path: path@ },
            Command::ProcessSubstitution { command } => CommandView::ProcessSubstitution {
                command: command@,
            },
        }
    }
}

/// Why a single line is not a directive.
#[derive(Debug, Clone, PartialEq)]
pub enum LineError {
    /// A process substitution whose `)` stands at or before the end of `<(`.
    MalformedSubstitution,
    /// `source` with other than exactly one argument.
    SourceArity,
    /// `python_venv` with more than one argument.
    VenvArity,
    /// A line that starts with no known keyword.
    UnrecognizedDirective { line: String },
}

pub enum LineErrorView {
    MalformedSubstitution,
    SourceArity,
    VenvArity,
    UnrecognizedDirective { line: Seq<char> },
}

impl View for LineError {
    type V = LineErrorView;

    open spec fn view(&self) -> LineErrorView {
        match self {
            LineError::MalformedSubstitution => LineErrorView::MalformedSubstitution,
            LineError::SourceArity => LineErrorView::SourceArity,
            LineError::VenvArity => LineErrorView::VenvArity,
            LineError::UnrecognizedDirective { line } => LineErrorView::UnrecognizedDirective { line: line@ },
        }
    }
}

/// A line of an environment file that failed to parse: its 1-based number,
/// its trimmed text, and why.
#[derive(Debug, Clone, PartialEq)]
pub struct ParseError {
    pub line_number: usize,
    pub line: String,
    pub kind: LineError,
}

pub struct ParseErrorView {
    pub line_number: nat,
    pub line: Seq<char>,
    pub kind: LineErrorView,
}

impl View for ParseError {
    type V = ParseErrorView;

    open spec fn view(&self) -> ParseErrorView {
        ParseErrorView { line_number: self.line_number as nat, line: self.line@, kind: self.kind@ }
    }
}

pub open spec fn line_result_view(r: Result<Command, LineError>) -> Result<
    CommandView,
    LineErrorView,
> {
    match r {
        Ok(c) => Ok(c@),
        Err(e) => Err(e@),
    }
}

pub open spec fn parse_result_view(r: Result<Vec<Command>, ParseError>) -> Result<
    Seq<CommandView>,
    ParseErrorView,
> {
    match r {
        Ok(v) => Ok(v@.map_values(|c: Command| c@)),
        Err(e) => Err(e@),
    }
}

// ---------------------------------------------------------------------------
// The grammar
// ---------------------------------------------------------------------------
/// The directive that a trimmed, non-empty, non-comment line `l` states.
///
/// The checks run in order, each on the line's first word: a `source` line holding both `<(` and `)` is a
/// process substitution, whose command lies between the first `<(` and the
/// last `)` (text after that `)` is ignored); then `source <file>`; then
/// `python_venv [path]`.
pub open spec fn line_spec(l: Seq<char>) -> Result<CommandView, LineErrorView> {
    if first_word_is(l, source_keyword()) && has_open(l) && has_close(l) {
        let a = first_open(l);
        let b = last_close(l);
        if b <= a + 2 {
            Err(LineErrorView::MalformedSubstitution)
        } else {
            Ok(CommandView::ProcessSubstitution { command: trim(l.subrange(a + 2, b)) })
        }
    } else if first_word_is(l, source_keyword()) {
        if words(l).len() == 2 {
            Ok(CommandView::Source { path: words(l)[1] })
        } else {
            Err(LineErrorView::SourceArity)
        }
    } else if first_word_is(l, venv_keyword()) {
        if words(l).len() == 1 {
            Ok(CommandView::PythonVenv { path: default_venv() })
        } else if words(l).len() == 2 {
            Ok(CommandView::PythonVenv { path: words(l)[1] })
        } else {
            Err(LineErrorView::VenvArity)
        }
    } else {
        Err(LineErrorView::UnrecognizedDirective { line: l })
    }
}

/// Whether a raw line holds no directive: blank, or a comment.
pub open spec fn is_skipped(raw: Seq<char>) -> bool {
    trim(raw).len() == 0 || trim(raw)[0] == '#'
}

/// The directives of the lines `ls`, in order, or the error of the first line
/// that fails.
pub open spec fn parse_lines(ls: Seq<Seq<char>>) -> Result<Seq<CommandView>, ParseErrorView>
    decreases ls.len(),
{
    if ls.len() == 0 {
        Ok(seq![])
    } else {
        match parse_lines(ls.drop_last()) {
            Err(e) => Err(e),
            Ok(cmds) => {
                if is_skipped(ls.last()) {
                    Ok(cmds)
                } else {
                    match line_spec(trim(ls.last())) {
                        Ok(c) => Ok(cmds.push(c)),
                        Err(k) => Err(
                            ParseErrorView {
                                line_number: ls.len(),
                                line: trim(ls.last()),
                                kind: k,
                            },
                        ),
                    }
                }
            },
        }
    }
}

/// What parsing the environment file `content` gives.
pub open spec fn parse_spec(content: Seq<char>) -> Result<Seq<CommandView>, ParseErrorView> {
    parse_lines(lines_of(content))
}

// ---------------------------------------------------------------------------
// Scanning
// ---------------------------------------------------------------------------
/// The characters of `s`.
fn to_chars(s: &str) -> (r: Vec<char>)
    ensures
        r@ == s@,
{
    broadcast use vstd::string::group_string_axioms;

    let mut r: Vec<char> = Vec::new();
    for c in it: s.chars()
        invariant
            r@ == it.seq().take(it.index() as int),
    {
        r.push(c);
    }
    assert(r@ =~= s@);
    r
}

/// `char::is_whitespace`.
fn is_whitespace(c: char) -> (r: bool)
    ensures
        r == is_ws(c),
{
    let u = c as u32;
    (0x09 <= u && u <= 0x0D) || u == 0x20 || u == 0x85 || u == 0xA0 || u == 0x1680 || (0x2000
        <= u && u <= 0x200A) || u == 0x2028 || u == 0x2029 || u == 0x202F || u == 0x205F || u
        == 0x3000
}

/// The bounds of `chars[lo..hi]` with its surrounding whitespace cut off.
fn trim_span(chars: &Vec<char>, lo: usize, hi: usize) -> (r: (usize, usize))
    requires
        lo <= hi <= chars@.len(),
    ensures
        lo <= r.0 <= r.1 <= hi,
        chars@.subrange(r.0 as int, r.1 as int) == trim(chars@.subrange(lo as int, hi as int)),
{
    let mut a = lo;
    while a < hi && is_whitespace(chars[a])
        invariant
            lo <= a <= hi <= chars@.len(),
            trim_start(chars@.subrange(lo as int, hi as int)) == trim_start(
                chars@.subrange(a as int, hi as int),
            ),
        decreases hi - a,
    {
        assert(chars@.subrange(a as int, hi as int).drop_first() =~= chars@.subrange(
            a + 1,
            hi as int,
        ));
        a += 1;
    }
    let mut b = hi;
    while b > a && is_whitespace(chars[b - 1])
        invariant
            lo <= a <= b <= hi <= chars@.len(),
            trim_end(chars@.subrange(a as int, hi as int)) == trim_end(
                chars@.subrange(a as int, b as int),
            ),
        decreases b - a,
    {
        assert(chars@.subrange(a as int, b as int).drop_last() =~= chars@.subrange(
            a as int,
            b - 1,
        ));
        b -= 1;
    }
    (a, b)
}

/// The spans of the words of `chars[lo..hi]`, relative to `lo`.
fn word_spans(chars: &Vec<char>, lo: usize, hi: usize) -> (r: Vec<(usize, usize)>)
    requires
        lo <= hi <= chars@.len(),
    ensures
        r@.len() == words(chars@.subrange(lo as int, hi as int)).len(),
        forall|k: int|
            #![trigger r@[k]]
            0 <= k < r@.len() ==> r@[k].0 <= r@[k].1 <= hi - lo && chars@.subrange(
                lo + r@[k].0,
                lo + r@[k].1,
            ) == words(chars@.subrange(lo as int, hi as int))[k],
{
    let ghost s = chars@.subrange(lo as int, hi as int);
    let mut r: Vec<(usize, usize)> = Vec::new();
    let mut i: usize = 0;
    while i < hi - lo
        invariant
            lo <= hi <= chars@.len(),
            s == chars@.subrange(lo as int, hi as int),
            i <= hi - lo,
            r@.len() == words(s.subrange(0, i as int)).len(),
            forall|k: int|
                #![trigger r@[k]]
                0 <= k < r@.len() ==> r@[k].0 <= r@[k].1 <= i && s.subrange(
                    r@[k].0 as int,
                    r@[k].1 as int,
                ) == words(s.subrange(0, i as int))[k],
            r@.len() > 0 && i > 0 && !is_ws(s[i - 1]) ==> r@.last().1 == i,
        decreases hi - lo - i,
    {
        let c = chars[lo + i];
        let ghost before = r@;
        assert(s.subrange(0, i + 1).drop_last() =~= s.subrange(0, i as int));
        if is_whitespace(c) {
        } else if i > 0 && !is_whitespace(chars[lo + i - 1]) {
            let n = r.len();
            let start = r[n - 1].0;
            r.set(n - 1, (start, i + 1));
            proof {
                assert forall|k: int|
                    #![trigger r@[k]]
                    0 <= k < r@.len() implies r@[k].0 <= r@[k].1 <= i + 1 && s.subrange(
                    r@[k].0 as int,
                    r@[k].1 as int,
                ) == words(s.subrange(0, i + 1))[k] by {
                    if k == n - 1 {
                        assert(s.subrange(start as int, i + 1) =~= s.subrange(
                            start as int,
                            i as int,
                        ).push(c));
                    } else {
                        assert(before[k] == r@[k]);
                    }
                }
            }
        } else {
            r.push((i, i + 1));
            proof {
                assert forall|k: int|
                    #![trigger r@[k]]
                    0 <= k < r@.len() implies r@[k].0 <= r@[k].1 <= i + 1 && s.subrange(
                    r@[k].0 as int,
                    r@[k].1 as int,
                ) == words(s.subrange(0, i + 1))[k] by {
                    if k == before.len() {
                        assert(s.subrange(i as int, i + 1) =~= seq![c]);
                    } else {
                        assert(before[k] == r@[k]);
                    }
                }
            }
        }
        i += 1;
    }
    assert(s.subrange(0, (hi - lo) as int) =~= s);
    proof {
        assert forall|k: int|
            #![trigger r@[k]]
            0 <= k < r@.len() implies r@[k].0 <= r@[k].1 <= hi - lo && chars@.subrange(
            lo + r@[k].0,
            lo + r@[k].1,
        ) == words(s)[k] by {
            assert(chars@.subrange(lo + r@[k].0, lo + r@[k].1) =~= s.subrange(
                r@[k].0 as int,
                r@[k].1 as int,
            ));
        }
    }
    r
}

/// Whether `chars[lo..hi]` starts with `kw`.
fn has_prefix(chars: &Vec<char>, lo: usize, hi: usize, kw: &[char]) -> (r: bool)
    requires
        lo <= hi <= chars@.len(),
    ensures
        r == starts_with(chars@.subrange(lo as int, hi as int), kw@),
{
    let ghost s = chars@.subrange(lo as int, hi as int);
    if kw.len() > hi - lo {
        return false;
    }
    let mut k: usize = 0;
    while k < kw.len()
        invariant
            kw@.len() <= hi - lo,
            lo <= hi <= chars@.len(),
            s == chars@.subrange(lo as int, hi as int),
            k <= kw@.len(),
            forall|j: int| 0 <= j < k ==> s[j] == kw@[j],
        decreases kw@.len() - k,
    {
        if chars[lo + k] != kw[k] {
            assert(s.subrange(0, kw@.len() as int)[k as int] != kw@[k as int]);
            return false;
        }
        k += 1;
    }
    assert(s.subrange(0, kw@.len() as int) =~= kw@);
    true
}

/// Whether the word `chars[lo + a..lo + b]` is `kw`.
fn word_is(chars: &Vec<char>, lo: usize, a: usize, b: usize, kw: &[char]) -> (r: bool)
    requires
        a <= b,
        lo + b <= chars@.len(),
    ensures
        r == (chars@.subrange(lo + a, lo + b) == kw@),
{
    if b - a != kw.len() {
        return false;
    }
    let n = chars.len();
    assert(lo + b <= n);
    let r = has_prefix(chars, lo + a, lo + b, kw);
    proof {
        let w = chars@.subrange(lo + a, lo + b);
        assert(w.subrange(0, kw@.len() as int) =~= w);
    }
    r
}

/// The position of the first `<(` in `chars[lo..hi]`, relative to `lo`.
fn find_first_open(chars: &Vec<char>, lo: usize, hi: usize) -> (r: Option<usize>)
    requires
        lo <= hi <= chars@.len(),
    ensures
        match r {
            Some(i) => is_first_open(chars@.subrange(lo as int, hi as int), i as int),
            None => !has_open(chars@.subrange(lo as int, hi as int)),
        },
{
    let ghost s = chars@.subrange(lo as int, hi as int);
    if hi - lo < 2 {
        return None;
    }
    let mut i: usize = 0;
    while i < hi - lo - 1
        invariant
            lo + 2 <= hi <= chars@.len(),
            i <= hi - lo - 1,
            s == chars@.subrange(lo as int, hi as int),
            forall|j: int| 0 <= j < i ==> !opens_at(s, j),
        decreases hi - lo - i,
    {
        if chars[lo + i] == '<' && chars[lo + i + 1] == '(' {
            return Some(i);
        }
        i += 1;
    }
    None
}

/// The position of the last `)` in `chars[lo..hi]`, relative to `lo`.
fn find_last_close(chars: &Vec<char>, lo: usize, hi: usize) -> (r: Option<usize>)
    requires
        lo <= hi <= chars@.len(),
    ensures
        match r {
            Some(i) => is_last_close(chars@.subrange(lo as int, hi as int), i as int),
            None => !has_close(chars@.subrange(lo as int, hi as int)),
        },
{
    let ghost s = chars@.subrange(lo as int, hi as int);
    let mut i: usize = hi - lo;
    while i > 0
        invariant
            lo <= hi <= chars@.len(),
            s == chars@.subrange(lo as int, hi as int),
            i <= hi - lo,
            forall|j: int| i <= j < s.len() ==> !closes_at(s, j),
        decreases i,
    {
        if chars[lo + i - 1] == ')' {
            return Some(i - 1);
        }
        i -= 1;
    }
    None
}

proof fn lemma_first_open_unique(s: Seq<char>, i: int)
    requires
        is_first_open(s, i),
    ensures
        has_open(s),
        first_open(s) == i,
{
    let k = first_open(s);
    assert(is_first_open(s, k));
    if k < i {
        assert(!opens_at(s, k));
    }
    if i < k {
        assert(!opens_at(s, i));
    }
}

proof fn lemma_last_close_unique(s: Seq<char>, i: int)
    requires
        is_last_close(s, i),
    ensures
        has_close(s),
        last_close(s) == i,
{
    let k = last_close(s);
    assert(is_last_close(s, k));
    if k < i {
        assert(!closes_at(s, i));
    }
    if i < k {
        assert(!closes_at(s, k));
    }
}

proof fn lemma_lines_nonempty(s: Seq<char>)
    ensures
        lines_of(s).len() >= 1,
    decreases s.len(),
{
    if s.len() > 0 {
        lemma_lines_nonempty(s.drop_last());
    }
}

/// The lines completed within the first `i` characters stay the first lines
/// of any longer prefix.
proof fn lemma_lines_prefix(s: Seq<char>, i: int, j: int)
    requires
        0 <= i <= j <= s.len(),
    ensures
        lines_of(s.take(j)).len() >= lines_of(s.take(i)).len(),
        forall|k: int|
            0 <= k < lines_of(s.take(i)).len() - 1 ==> #[trigger] lines_of(s.take(j))[k]
                == lines_of(s.take(i))[k],
    decreases j - i,
{
    lemma_lines_nonempty(s.take(i));
    if j > i {
        lemma_lines_prefix(s, i, j - 1);
        lemma_lines_nonempty(s.take(j - 1));
        assert(s.take(j).drop_last() =~= s.take(j - 1));
    }
}

/// Once some lines fail to parse, any lines that continue them fail alike.
proof fn lemma_parse_error_persists(l: Seq<Seq<char>>, m: Seq<Seq<char>>)
    requires
        parse_lines(l) is Err,
        l.len() <= m.len(),
        forall|k: int| 0 <= k < l.len() ==> m[k] == l[k],
    ensures
        parse_lines(m) == parse_lines(l),
    decreases m.len(),
{
    if m.len() == l.len() {
        assert(m =~= l);
    } else {
        lemma_parse_error_persists(l, m.drop_last());
    }
}

proof fn lemma_blank_trims_to_empty(s: Seq<char>)
    requires
        forall|i: int| 0 <= i < s.len() ==> is_ws(#[trigger] s[i]),
    ensures
        trim(s).len() == 0,
    decreases s.len(),
{
    if s.len() > 0 {
        lemma_blank_trims_to_empty(s.drop_first());
    }
}

proof fn lemma_blank_lines(s: Seq<char>)
    requires
        forall|i: int| 0 <= i < s.len() ==> is_ws(#[trigger] s[i]),
    ensures
        forall|k: int, i: int|
            0 <= k < lines_of(s).len() && 0 <= i < lines_of(s)[k].len() ==> is_ws(
                #[trigger] lines_of(s)[k][i],
            ),
    decreases s.len(),
{
    if s.len() > 0 {
        lemma_blank_lines(s.drop_last());
        lemma_lines_nonempty(s.drop_last());
        let ls = lines_of(s.drop_last());
        if s.last() != '\n' {
            let l = ls.last().push(s.last());
            assert forall|i: int| 0 <= i < l.len() implies is_ws(#[trigger] l[i]) by {
                if i < l.len() - 1 {
                    assert(l[i] == ls[ls.len() - 1][i]);
                }
            }
        }
    }
}

proof fn lemma_skipped_lines_parse_empty(ls: Seq<Seq<char>>)
    requires
        forall|k: int| 0 <= k < ls.len() ==> is_skipped(#[trigger] ls[k]),
    ensures
        parse_lines(ls) == Ok::<Seq<CommandView>, ParseErrorView>(seq![]),
    decreases ls.len(),
{
    if ls.len() > 0 {
        lemma_skipped_lines_parse_empty(ls.drop_last());
        assert(is_skipped(ls[ls.len() - 1]));
    }
}

/// Content made of whitespace alone (the empty content among it) holds no
/// directive, and parsing it is no error.
pub proof fn lemma_blank_content_parses_empty(content: Seq<char>)
    requires
        forall|i: int| 0 <= i < content.len() ==> is_ws(#[trigger] content[i]),
    ensures
        parse_spec(content) == Ok::<Seq<CommandView>, ParseErrorView>(seq![]),
{
    lemma_blank_lines(content);
    let ls = lines_of(content);
    assert forall|k: int| 0 <= k < ls.len() implies is_skipped(#[trigger] ls[k]) by {
        lemma_blank_trims_to_empty(ls[k]);
    }
    lemma_skipped_lines_parse_empty(ls);
}


/// A copy of `text[lo..hi]`, counted in characters.
fn text_span(text: &str, lo: usize, hi: usize) -> (r: String)
    requires
        lo <= hi <= text@.len(),
    ensures
        r@ == text@.subrange(lo as int, hi as int),
{
    String::from_str(text.substring_char(lo, hi))
}

pub struct Parser;

impl Parser {
    /// `source <(command)`, on the line `text[lo..hi]` whose first `<(` stands
    /// at `lo + start` and whose last `)` at `lo + end`.
    fn parse_process_substitution(
        text: &str,
        chars: &Vec<char>,
        lo: usize,
        hi: usize,
        start: usize,
        end: usize,
    ) -> (r: Result<Command, LineError>)
        requires
            chars@ == text@,
            lo <= hi <= chars@.len(),
            is_first_open(chars@.subrange(lo as int, hi as int), start as int),
            is_last_close(chars@.subrange(lo as int, hi as int), end as int),
            first_word_is(chars@.subrange(lo as int, hi as int), source_keyword()),
        ensures
            line_result_view(r) == line_spec(chars@.subrange(lo as int, hi as int)),
    {
        proof {
            lemma_first_open_unique(chars@.subrange(lo as int, hi as int), start as int);
            lemma_last_close_unique(chars@.subrange(lo as int, hi as int), end as int);
        }
        if end <= start + 2 {
            return Err(LineError::MalformedSubstitution);
        }
        let (a, b) = trim_span(chars, lo + start + 2, lo + end);
        proof {
            assert(chars@.subrange(lo as int, hi as int).subrange(start + 2, end as int)
                =~= chars@.subrange(lo + start + 2, lo + end));
        }
        Ok(Command::ProcessSubstitution { command: text_span(text, a, b) })
    }
    /// `source <file>`, on the line `text[lo..hi]`.
    fn parse_source(text: &str, chars: &Vec<char>, lo: usize, hi: usize) -> (r: Result<
        Command,
        LineError,
    >)
        requires
            chars@ == text@,
            lo <= hi <= chars@.len(),
            first_word_is(chars@.subrange(lo as int, hi as int), source_keyword()),
            !(has_open(chars@.subrange(lo as int, hi as int)) && has_close(
                chars@.subrange(lo as int, hi as int),
            )),
        ensures
            line_result_view(r) == line_spec(chars@.subrange(lo as int, hi as int)),
    {
        let parts = word_spans(chars, lo, hi);
        if parts.len() != 2 {
            return Err(LineError::SourceArity);
        }
        let (a, b) = parts[1];
        Ok(Command::Source { path: text_span(text, lo + a, lo + b) })
    }

    /// `python_venv [path]`, on the line `text[lo..hi]`.
    fn parse_python_venv(text: &str, chars: &Vec<char>, lo: usize, hi: usize) -> (r: Result<
        Command,
        LineError,
    >)
        requires
            chars@ == text@,
            lo <= hi <= chars@.len(),
            !first_word_is(chars@.subrange(lo as int, hi as int), source_keyword()),
            first_word_is(chars@.subrange(lo as int, hi as int), venv_keyword()),
        ensures
            line_result_view(r) == line_spec(chars@.subrange(lo as int, hi as int)),
    {
        let parts = word_spans(chars, lo, hi);
        let path = if parts.len() == 1 {
            let d = String::from_str(".venv");
            proof {
                reveal_strlit(".venv");
                assert(d@ =~= default_venv());
            }
            d
        } else if parts.len() == 2 {
            let (a, b) = parts[1];
            text_span(text, lo + a, lo + b)
        } else {
            return Err(LineError::VenvArity);
        };
        Ok(Command::PythonVenv { path })
    }

    /// The directive on the line `text[lo..hi]`.
    fn parse_line_in(text: &str, chars: &Vec<char>, lo: usize, hi: usize) -> (r: Result<
        Command,
        LineError,
    >)
        requires
            chars@ == text@,
            lo <= hi <= chars@.len(),
        ensures
            line_result_view(r) == line_spec(chars@.subrange(lo as int, hi as int)),
    {
        let source_kw = ['s', 'o', 'u', 'r', 'c', 'e'];
        let venv_kw = ['p', 'y', 't', 'h', 'o', 'n', '_', 'v', 'e', 'n', 'v'];
        assert(source_kw@ =~= source_keyword());
        assert(venv_kw@ =~= venv_keyword());
        let parts = word_spans(chars, lo, hi);
        let first_is_source = parts.len() > 0 && word_is(chars, lo, parts[0].0, parts[0].1, &source_kw);
        let first_is_venv = parts.len() > 0 && word_is(chars, lo, parts[0].0, parts[0].1, &venv_kw);
        if first_is_source {
            match (find_first_open(chars, lo, hi), find_last_close(chars, lo, hi)) {
                (Some(start), Some(end)) => {
                    return Self::parse_process_substitution(text, chars, lo, hi, start, end);
                },
                _ => {},
            }
            return Self::parse_source(text, chars, lo, hi);
        }
        if first_is_venv {
            return Self::parse_python_venv(text, chars, lo, hi);
        }
        Err(LineError::UnrecognizedDirective { line: text_span(text, lo, hi) })
    }

    /// The directive on one trimmed line of an environment file.
    pub fn parse_line(line: &str) -> (r: Result<Command, LineError>)
        ensures
            line_result_view(r) == line_spec(line@),
    {
        let chars = to_chars(line);
        assert(chars@.subrange(0, chars@.len() as int) =~= chars@);
        Self::parse_line_in(line, &chars, 0, chars.len())
    }
    /// The directive, if any, on the raw line `text[lo..hi]`, numbered
    /// `line_number`.
    fn parse_raw_line(text: &str, chars: &Vec<char>, lo: usize, hi: usize, line_number: usize) -> (r:
        Result<Option<Command>, ParseError>)
        requires
            chars@ == text@,
            lo <= hi <= chars@.len(),
        ensures
            ({
                let raw = chars@.subrange(lo as int, hi as int);
                match r {
                    Ok(None) => is_skipped(raw),
                    Ok(Some(c)) => !is_skipped(raw) && line_spec(trim(raw)) == Ok::<
                        CommandView,
                        LineErrorView,
                    >(c@),
                    Err(e) => !is_skipped(raw) && line_spec(trim(raw)) == Err::<
                        CommandView,
                        LineErrorView,
                    >(e.kind@) && e.line@ == trim(raw) && e.line_number == line_number,
                }
            }),
    {
        let (a, b) = trim_span(chars, lo, hi);
        if a == b || chars[a] == '#' {
            return Ok(None);
        }
        match Self::parse_line_in(text, chars, a, b) {
            Ok(cmd) => Ok(Some(cmd)),
            Err(kind) => Err(ParseError { line_number, line: text_span(text, a, b), kind }),
        }
    }

    /// The directives of an environment file, in order; or the first line
    /// that is not one, with its number. Blank lines and `#` comments hold
    /// none.
    pub fn parse(content: &str) -> (r: Result<Vec<Command>, ParseError>)
        ensures
            parse_result_view(r) == parse_spec(content@),
    {
        let chars = to_chars(content);
        let n = chars.len();
        let ghost s = chars@;
        let mut commands: Vec<Command> = Vec::new();
        let mut start: usize = 0;
        let mut completed: usize = 0;
        let ghost mut done: Seq<Seq<char>> = seq![];
        let mut i: usize = 0;
        assert(s.take(0) =~= seq![]);
        assert(s.subrange(0, 0) =~= seq![]);
        assert(done.push(seq![]) =~= seq![seq![]]);
        assert(commands@.map_values(|c: Command| c@) =~= seq![]);
        while i < n
            invariant
                n == s.len(),
                s == chars@,
                chars@ == content@,
                start <= i <= n,
                lines_of(s.take(i as int)) == done.push(s.subrange(start as int, i as int)),
                done.len() == completed,
                completed <= start,
                parse_lines(done) == Ok::<Seq<CommandView>, ParseErrorView>(
                    commands@.map_values(|c: Command| c@),
                ),
            decreases n - i,
        {
            assert(s.take(i + 1).drop_last() =~= s.take(i as int));
            if chars[i] == '\n' {
                let step = Self::parse_raw_line(content, &chars, start, i, completed + 1);
                let ghost raw = s.subrange(start as int, i as int);
                let ghost next = done.push(raw);
                assert(next.drop_last() =~= done);
                match step {
                    Ok(found) => {
                        match found {
                            Some(cmd) => {
                                commands.push(cmd);
                            },
                            None => {},
                        }
                        assert(commands@.map_values(|c: Command| c@) =~= match parse_lines(
                            next,
                        ) {
                            Ok(v) => v,
                            Err(_) => seq![],
                        });
                    },
                    Err(e) => {
                        proof {
                            assert(s.subrange(i + 1, i + 1) =~= seq![]);
                            lemma_lines_prefix(s, i + 1, n as int);
                            assert(s.take(n as int) =~= s);
                            lemma_lines_nonempty(s.take(i + 1));
                            assert(lines_of(s.take(i + 1)).drop_last() =~= next);
                            lemma_parse_error_persists(next, lines_of(s));
                        }
                        return Err(e);
                    },
                }
                proof {
                    done = next;
                    assert(s.subrange(i + 1, i + 1) =~= seq![]);
                }
                start = i + 1;
                completed = completed + 1;
            } else {
                assert(s.subrange(start as int, i + 1) =~= s.subrange(start as int, i as int).push(
                    chars@[i as int],
                ));
                assert(done.push(s.subrange(start as int, i as int)).drop_last() =~= done);
            }
            i = i + 1;
        }
        assert(s.take(n as int) =~= s);
        let ghost raw = s.subrange(start as int, n as int);
        let ghost next = done.push(raw);
        assert(next.drop_last() =~= done);
        if start == n {
            assert(raw =~= seq![]);
            assert(commands@.map_values(|c: Command| c@) =~= match parse_lines(next) {
                Ok(v) => v,
                Err(_) => seq![],
            });
            return Ok(commands);
        }
        match Self::parse_raw_line(content, &chars, start, n, completed + 1) {
            Ok(found) => {
                match found {
                    Some(cmd) => {
                        commands.push(cmd);
                    },
                    None => {},
                }
                assert(commands@.map_values(|c: Command| c@) =~= match parse_lines(next) {
                    Ok(v) => v,
                    Err(_) => seq![],
                });
                Ok(commands)
            },
            Err(e) => Err(e),
        }
    }
}

} // verus!
