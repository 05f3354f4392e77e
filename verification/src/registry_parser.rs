use vstd::prelude::*;
use crate::architecture::{Architecture, spec_from_tag};
use crate::registry_key::{RegistryKey, KeyView, split_path, segs_view, split_path_chars, MetaUpdate, MetaUpdateView};
use crate::registry_value::{RegistryValue, RegistryValueData, ValueView, ValueDataView, u64_from_le8, le_val, REG_BINARY, REG_QWORD};
use crate::text::{
    trim_spec, trim_start_spec, trim_end_spec, trim_chars, trim_start_chars, trim_end_chars,
    starts_with, starts_with_lit, str_chars, chars_to_string, skip_chars, sub_chars,
    is_radix_seq, radix_val, parse_radix_u64, push_chars,
};
use crate::registry_utils::{spec_timestamp_to_filetime, timestamp_to_filetime,
    MAX_FILETIME_SECONDS};

verus! {

broadcast use vstd::std_specs::vec::group_vec_axioms;

// ---------------------------------------------------------------------------
// Errors and results.
// ---------------------------------------------------------------------------
#[derive(Debug)]
pub enum ParseError {
    InvalidHeader,
    Line { line: usize, msg: String },
}

pub enum ParseErrorView {
    InvalidHeader,
    Line(int, Seq<char>),
}

impl View for ParseError {
    type V = ParseErrorView;

    open spec fn view(&self) -> ParseErrorView {
        match self {
            ParseError::InvalidHeader => ParseErrorView::InvalidHeader,
            ParseError::Line { line, msg } => ParseErrorView::Line(*line as int, msg@),
        }
    }
}

impl ParseError {
    /// A readable rendering of the error.
    pub fn message(&self) -> (r: String)
        ensures
            match self {
                ParseError::InvalidHeader => r@ == "invalid header"@,
                ParseError::Line { line: _, msg } => r@ == "parse error: "@ + msg@,
            },
    {
        match self {
            ParseError::InvalidHeader => String::from_str("invalid header"),
            ParseError::Line { line: _, msg } => {
                let mut s = String::from_str("parse error: ");
                s.append(msg.as_str());
                s
            },
        }
    }
}

pub struct LoadResult {
    pub root_key: RegistryKey,
    pub relative_base: String,
    pub architecture: Architecture,
}

// ---------------------------------------------------------------------------
// Lines.  Text is split at newlines; a carriage return before the newline is
// dropped, and a final line ending opens no further line.
// ---------------------------------------------------------------------------
pub open spec fn line_len(s: Seq<char>) -> int
    decreases s.len(),
{
    if s.len() == 0 || s[0] == '\n' {
        0
    } else {
        1 + line_len(s.skip(1))
    }
}

pub proof fn lemma_line_len(s: Seq<char>)
    ensures
        0 <= line_len(s) <= s.len(),
        forall|t: int| 0 <= t < line_len(s) ==> s[t] != '\n',
        line_len(s) < s.len() ==> s[line_len(s)] == '\n',
    decreases s.len(),
{
    if s.len() > 0 && s[0] != '\n' {
        lemma_line_len(s.skip(1));
        assert forall|t: int| 0 <= t < line_len(s) implies s[t] != '\n' by {
            if t > 0 {
                assert(s.skip(1)[t - 1] == s[t]);
                assert(s.skip(1)[t - 1] != '\n');
            }
        }
        if line_len(s) < s.len() {
            assert(s.skip(1)[line_len(s) - 1] == s[line_len(s)]);
        }
    }
}

pub proof fn lemma_line_len_characterize(s: Seq<char>, m: int)
    requires
        0 <= m <= s.len(),
        forall|t: int| 0 <= t < m ==> s[t] != '\n',
        m < s.len() ==> s[m] == '\n',
    ensures
        line_len(s) == m,
    decreases m,
{
    if m > 0 {
        assert(forall|t: int| 0 <= t < s.skip(1).len() ==> s.skip(1)[t] == s[t + 1]);
        lemma_line_len_characterize(s.skip(1), m - 1);
    }
}

/// One raw line with a trailing carriage return removed.
pub open spec fn strip_cr(s: Seq<char>) -> Seq<char> {
    if s.len() > 0 && s.last() == '\r' {
        s.drop_last()
    } else {
        s
    }
}

pub open spec fn split_lines(s: Seq<char>) -> Seq<Seq<char>>
    decreases s.len(),
    via split_lines_decreases
{
    if s.len() == 0 {
        Seq::empty()
    } else {
        let j = line_len(s);
        if j == s.len() {
            seq![strip_cr(s.take(j))]
        } else {
            seq![strip_cr(s.take(j))] + split_lines(s.skip(j + 1))
        }
    }
}

#[via_fn]
proof fn split_lines_decreases(s: Seq<char>) {
    lemma_line_len(s);
}

/// Split text into lines.
pub fn split_lines_chars(p: &Vec<char>) -> (r: Vec<Vec<char>>)
    ensures
        segs_view(r@) == split_lines(p@),
{
    let mut r: Vec<Vec<char>> = Vec::new();
    let mut i: usize = 0;
    proof {
        assert(p@.skip(0) =~= p@);
        assert(segs_view(r@) =~= Seq::<Seq<char>>::empty());
    }
    while i < p.len()
        invariant
            i <= p@.len(),
            split_lines(p@) =~= segs_view(r@) + split_lines(p@.skip(i as int)),
        decreases p@.len() - i,
    {
        let ghost rest = p@.skip(i as int);
        let mut line: Vec<char> = Vec::new();
        let mut j: usize = i;
        while j < p.len() && p[j] != '\n'
            invariant
                i <= j <= p@.len(),
                line@ =~= p@.subrange(i as int, j as int),
                forall|t: int| i <= t < j ==> p@[t] != '\n',
            decreases p@.len() - j,
        {
            line.push(p[j]);
            proof {
                assert(line@ =~= p@.subrange(i as int, j as int + 1));
            }
            j += 1;
        }
        proof {
            lemma_line_len_characterize(rest, j - i);
            assert(rest.take(line_len(rest)) =~= p@.subrange(i as int, j as int));
        }
        let stripped = if line.len() > 0 && line[line.len() - 1] == '\r' {
            let mut l2 = line;
            l2.pop();
            proof {
                assert(l2@ =~= p@.subrange(i as int, j as int).drop_last());
            }
            l2
        } else {
            line
        };
        proof {
            assert(stripped@ == strip_cr(rest.take(line_len(rest))));
        }
        let ghost oldr = r@;
        r.push(stripped);
        proof {
            assert(segs_view(r@) =~= segs_view(oldr).push(strip_cr(rest.take(line_len(rest)))));
        }
        if j == p.len() {
            proof {
                assert(line_len(rest) == rest.len());
                assert(split_lines(rest) =~= seq![strip_cr(rest.take(line_len(rest)))]);
                assert(p@.skip(p@.len() as int) =~= Seq::<char>::empty());
                assert(segs_view(oldr) + split_lines(rest) =~= segs_view(r@) + split_lines(
                    p@.skip(p@.len() as int),
                ));
            }
            i = j;
        } else {
            proof {
                assert(rest.skip(line_len(rest) + 1) =~= p@.skip(j as int + 1));
                assert(split_lines(rest) =~= seq![strip_cr(rest.take(line_len(rest)))]
                    + split_lines(p@.skip(j as int + 1)));
                assert(segs_view(oldr) + split_lines(rest) =~= segs_view(r@) + split_lines(
                    p@.skip(j as int + 1),
                ));
            }
            i = j + 1;
        }
    }
    proof {
        assert(p@.skip(p@.len() as int) =~= Seq::<char>::empty());
        assert(segs_view(r@) =~= split_lines(p@));
    }
    r
}

// ---------------------------------------------------------------------------
// Escapes.
// ---------------------------------------------------------------------------

/// The character an escape pair `\X` decodes to.
pub open spec fn decode_escape(c: char) -> char {
    if c == 'n' {
        '\n'
    } else if c == 'r' {
        '\r'
    } else if c == 't' {
        '\t'
    } else if c == '0' {
        '\u{0}'
    } else {
        c
    }
}

/// Escape decoding inside quoted strings: `\X` pairs decode, everything else
/// is copied; a trailing lone backslash is copied as it stands.
pub open spec fn spec_unescape(s: Seq<char>) -> Seq<char>
    decreases s.len(),
{
    if s.len() == 0 {
        Seq::empty()
    } else if s[0] == '\\' && s.len() >= 2 {
        seq![decode_escape(s[1])] + spec_unescape(s.skip(2))
    } else {
        seq![s[0]] + spec_unescape(s.skip(1))
    }
}

pub fn unescape_string(v: &Vec<char>) -> (r: Vec<char>)
    ensures
        r@ == spec_unescape(v@),
{
    let mut r: Vec<char> = Vec::new();
    let mut i: usize = 0;
    proof {
        assert(v@.skip(0) =~= v@);
    }
    while i < v.len()
        invariant
            i <= v@.len(),
            spec_unescape(v@) =~= r@ + spec_unescape(v@.skip(i as int)),
        decreases v@.len() - i,
    {
        proof {
            assert(v@.skip(i as int)[0] == v@[i as int]);
            assert(v@.skip(i as int).skip(1) =~= v@.skip(i as int + 1));
            if i + 2 <= v@.len() {
                assert(v@.skip(i as int)[1] == v@[i as int + 1]);
                assert(v@.skip(i as int).skip(2) =~= v@.skip(i as int + 2));
            }
        }
        if v[i] == '\\' && i + 1 < v.len() {
            let c = v[i + 1];
            let d = if c == 'n' {
                '\n'
            } else if c == 'r' {
                '\r'
            } else if c == 't' {
                '\t'
            } else if c == '0' {
                '\u{0}'
            } else {
                c
            };
            r.push(d);
            i += 2;
        } else {
            r.push(v[i]);
            i += 1;
        }
    }
    proof {
        assert(v@.skip(v@.len() as int) =~= Seq::<char>::empty());
        assert(r@ =~= spec_unescape(v@));
    }
    r
}

/// Key paths unescape by collapsing doubled backslashes only.
pub open spec fn spec_unescape_path(s: Seq<char>) -> Seq<char>
    decreases s.len(),
{
    if s.len() == 0 {
        Seq::empty()
    } else if s[0] == '\\' && s.len() >= 2 && s[1] == '\\' {
        seq!['\\'] + spec_unescape_path(s.skip(2))
    } else {
        seq![s[0]] + spec_unescape_path(s.skip(1))
    }
}

pub fn unescape_key_path(v: &Vec<char>) -> (r: Vec<char>)
    ensures
        r@ == spec_unescape_path(v@),
{
    let mut r: Vec<char> = Vec::new();
    let mut i: usize = 0;
    proof {
        assert(v@.skip(0) =~= v@);
    }
    while i < v.len()
        invariant
            i <= v@.len(),
            spec_unescape_path(v@) =~= r@ + spec_unescape_path(v@.skip(i as int)),
        decreases v@.len() - i,
    {
        proof {
            assert(v@.skip(i as int)[0] == v@[i as int]);
            assert(v@.skip(i as int).skip(1) =~= v@.skip(i as int + 1));
            if i + 2 <= v@.len() {
                assert(v@.skip(i as int)[1] == v@[i as int + 1]);
                assert(v@.skip(i as int).skip(2) =~= v@.skip(i as int + 2));
            }
        }
        if v[i] == '\\' && i + 1 < v.len() && v[i + 1] == '\\' {
            r.push('\\');
            i += 2;
        } else {
            r.push(v[i]);
            i += 1;
        }
    }
    proof {
        assert(v@.skip(v@.len() as int) =~= Seq::<char>::empty());
        assert(r@ =~= spec_unescape_path(v@));
    }
    r
}

// ---------------------------------------------------------------------------
// Scanning helpers.
// ---------------------------------------------------------------------------

/// First position of `c` in `s`.
pub open spec fn find_char(s: Seq<char>, c: char) -> Option<int>
    decreases s.len(),
{
    if s.len() == 0 {
        None
    } else if s[0] == c {
        Some(0)
    } else {
        match find_char(s.skip(1), c) {
            Some(i) => Some(i + 1),
            None => None,
        }
    }
}

pub proof fn lemma_find_char(s: Seq<char>, c: char)
    ensures
        match find_char(s, c) {
            Some(i) => 0 <= i < s.len() && s[i] == c && (forall|t: int| 0 <= t < i ==> s[t] != c),
            None => forall|t: int| 0 <= t < s.len() ==> s[t] != c,
        },
    decreases s.len(),
{
    if s.len() > 0 && s[0] != c {
        lemma_find_char(s.skip(1), c);
        match find_char(s.skip(1), c) {
            Some(k) => {
                assert(s.skip(1)[k] == s[k + 1]);
                assert forall|t: int| 0 <= t < k + 1 implies s[t] != c by {
                    if t > 0 {
                        assert(s.skip(1)[t - 1] == s[t]);
                        assert(s.skip(1)[t - 1] != c);
                    }
                }
            },
            None => {
                assert forall|t: int| 0 <= t < s.len() implies s[t] != c by {
                    if t > 0 {
                        assert(s.skip(1)[t - 1] == s[t]);
                        assert(s.skip(1)[t - 1] != c);
                    }
                }
            },
        }
    }
}

pub fn find_char_exec(v: &Vec<char>, c: char) -> (r: Option<usize>)
    ensures
        match r {
            Some(i) => find_char(v@, c) == Some(i as int),
            None => find_char(v@, c) is None,
        },
{
    proof {
        lemma_find_char(v@, c);
    }
    let mut i: usize = 0;
    while i < v.len()
        invariant
            i <= v@.len(),
            forall|t: int| 0 <= t < i ==> v@[t] != c,
        decreases v@.len() - i,
    {
        if v[i] == c {
            proof {
                lemma_find_char(v@, c);
                match find_char(v@, c) {
                    Some(k) => {
                        if k < i as int {
                            assert(v@[k] != c);
                        }
                        if k > i as int {
                            assert(v@[i as int] != c);
                        }
                    },
                    None => {
                        assert(v@[i as int] != c);
                    },
                }
            }
            return Some(i);
        }
        i += 1;
    }
    None
}

/// End of a quoted value name: the position of the closing quote, scanning
/// from `i` and stepping over escape pairs.
pub open spec fn find_name_end(s: Seq<char>, i: int) -> Option<int>
    decreases (if i >= s.len() {
        0int
    } else {
        s.len() - i
    }),
{
    if i >= s.len() {
        None
    } else if s[i] == '\\' {
        find_name_end(s, i + 2)
    } else if s[i] == '"' {
        Some(i)
    } else {
        find_name_end(s, i + 1)
    }
}

pub fn find_name_end_exec(v: &Vec<char>, start: usize) -> (r: Option<usize>)
    ensures
        match r {
            Some(i) => find_name_end(v@, start as int) == Some(i as int) && start <= i
                < v@.len(),
            None => find_name_end(v@, start as int) is None,
        },
{
    let mut i: usize = start;
    loop
        invariant
            start <= i,
            find_name_end(v@, start as int) == find_name_end(v@, i as int),
        decreases (if i >= v@.len() {
            0int
        } else {
            v@.len() - i
        }),
    {
        if i >= v.len() {
            return None;
        }
        if v[i] == '\\' {
            let n = v.len();
            if i > usize::MAX - 2 {
                proof {
                    assert(v@.len() == n <= usize::MAX);
                    assert(find_name_end(v@, i as int) == find_name_end(v@, i as int + 2));
                    assert(find_name_end(v@, i as int + 2) is None);
                }
                return None;
            }
            i += 2;
        } else if v[i] == '"' {
            return Some(i);
        } else {
            i += 1;
        }
    }
}


/// First position of the two-character run `"):"`.
pub open spec fn find_close(s: Seq<char>) -> Option<int>
    decreases s.len(),
{
    if s.len() < 2 {
        None
    } else if s[0] == ')' && s[1] == ':' {
        Some(0)
    } else {
        match find_close(s.skip(1)) {
            Some(i) => Some(i + 1),
            None => None,
        }
    }
}

pub proof fn lemma_find_close(s: Seq<char>)
    ensures
        match find_close(s) {
            Some(i) => 0 <= i && i + 1 < s.len() && s[i] == ')' && s[i + 1] == ':',
            None => true,
        },
    decreases s.len(),
{
    if s.len() >= 2 && !(s[0] == ')' && s[1] == ':') {
        lemma_find_close(s.skip(1));
        match find_close(s.skip(1)) {
            Some(i) => {
                assert(s.skip(1)[i] == s[i + 1]);
                assert(s.skip(1)[i + 1] == s[i + 2]);
            },
            None => {
            },
        }
    }
}

pub fn find_close_exec(v: &Vec<char>) -> (r: Option<usize>)
    ensures
        match r {
            Some(i) => find_close(v@) == Some(i as int),
            None => find_close(v@) is None,
        },
{
    let n = v.len();
    if n < 2 {
        return None;
    }
    let mut i: usize = 0;
    proof {
        assert(v@.skip(0) =~= v@);
    }
    while i < n - 1
        invariant
            n == v@.len(),
            n >= 2,
            i <= n - 1,
            find_close(v@) == (match find_close(v@.skip(i as int)) {
                Some(k) => Some(k + i),
                None => None::<int>,
            }),
        decreases n - i,
    {
        proof {
            assert(v@.skip(i as int)[0] == v@[i as int]);
            assert(v@.skip(i as int)[1] == v@[i as int + 1]);
            assert(v@.skip(i as int).skip(1) =~= v@.skip(i as int + 1));
        }
        if v[i] == ')' && v[i + 1] == ':' {
            return Some(i);
        }
        i += 1;
    }
    proof {
        assert(v@.skip(i as int).len() < 2);
    }
    None
}

// ---------------------------------------------------------------------------
// Payload grammar.
// ---------------------------------------------------------------------------

/// A quoted, escaped string: surrounding whitespace dropped, quotes removed,
/// escapes decoded.
pub open spec fn spec_parse_quoted(data: Seq<char>) -> Result<Seq<char>, Seq<char>> {
    let t = trim_spec(data);
    if t.len() >= 2 && t[0] == '"' && t.last() == '"' {
        Ok(spec_unescape(t.subrange(1, t.len() - 1)))
    } else {
        Err("expected quoted string"@)
    }
}

pub fn parse_quoted_string(data: &Vec<char>) -> (r: Result<Vec<char>, &'static str>)
    ensures
        match r {
            Ok(v) => spec_parse_quoted(data@) == Ok::<Seq<char>, Seq<char>>(v@),
            Err(m) => spec_parse_quoted(data@) == Err::<Seq<char>, Seq<char>>(m@),
        },
{
    let t = trim_chars(data);
    if t.len() >= 2 && t[0] == '"' && t[t.len() - 1] == '"' {
        let inner = sub_chars(&t, 1, t.len() - 1);
        Ok(unescape_string(&inner))
    } else {
        Err("expected quoted string")
    }
}

/// Length of the leading run without a NUL.
pub open spec fn nul_len(s: Seq<char>) -> int
    decreases s.len(),
{
    if s.len() == 0 || s[0] == '\u{0}' {
        0
    } else {
        1 + nul_len(s.skip(1))
    }
}

pub proof fn lemma_nul_len(s: Seq<char>)
    ensures
        0 <= nul_len(s) <= s.len(),
        forall|t: int| 0 <= t < nul_len(s) ==> s[t] != '\u{0}',
        nul_len(s) < s.len() ==> s[nul_len(s)] == '\u{0}',
    decreases s.len(),
{
    if s.len() > 0 && s[0] != '\u{0}' {
        lemma_nul_len(s.skip(1));
        assert forall|t: int| 0 <= t < nul_len(s) implies s[t] != '\u{0}' by {
            if t > 0 {
                assert(s.skip(1)[t - 1] == s[t]);
                assert(s.skip(1)[t - 1] != '\u{0}');
            }
        }
        if nul_len(s) < s.len() {
            assert(s.skip(1)[nul_len(s) - 1] == s[nul_len(s)]);
        }
    }
}

proof fn lemma_nul_len_characterize(s: Seq<char>, m: int)
    requires
        0 <= m <= s.len(),
        forall|t: int| 0 <= t < m ==> s[t] != '\u{0}',
        m < s.len() ==> s[m] == '\u{0}',
    ensures
        nul_len(s) == m,
    decreases m,
{
    if m > 0 {
        assert(forall|t: int| 0 <= t < s.skip(1).len() ==> s.skip(1)[t] == s[t + 1]);
        lemma_nul_len_characterize(s.skip(1), m - 1);
    }
}

/// The items of a multi-string payload: NUL-separated runs, empties dropped.
pub open spec fn split_nul(s: Seq<char>) -> Seq<Seq<char>>
    decreases s.len(),
    via split_nul_decreases
{
    if s.len() == 0 {
        Seq::empty()
    } else if s[0] == '\u{0}' {
        split_nul(s.skip(1))
    } else {
        seq![s.take(nul_len(s))] + split_nul(s.skip(nul_len(s)))
    }
}

#[via_fn]
proof fn split_nul_decreases(s: Seq<char>) {
    lemma_nul_len(s);
}

pub fn split_nul_chars(p: &Vec<char>) -> (r: Vec<Vec<char>>)
    ensures
        segs_view(r@) == split_nul(p@),
{
    let mut r: Vec<Vec<char>> = Vec::new();
    let mut i: usize = 0;
    proof {
        assert(p@.skip(0) =~= p@);
        assert(segs_view(r@) =~= Seq::<Seq<char>>::empty());
    }
    while i < p.len()
        invariant
            i <= p@.len(),
            split_nul(p@) =~= segs_view(r@) + split_nul(p@.skip(i as int)),
        decreases p@.len() - i,
    {
        if p[i] == '\u{0}' {
            proof {
                assert(p@.skip(i as int)[0] == p@[i as int]);
                assert(p@.skip(i as int).skip(1) =~= p@.skip(i as int + 1));
            }
            i += 1;
        } else {
            let ghost rest = p@.skip(i as int);
            let mut seg: Vec<char> = Vec::new();
            let mut j: usize = i;
            while j < p.len() && p[j] != '\u{0}'
                invariant
                    i <= j <= p@.len(),
                    seg@ =~= p@.subrange(i as int, j as int),
                    forall|t: int| i <= t < j ==> p@[t] != '\u{0}',
                decreases p@.len() - j,
            {
                seg.push(p[j]);
                proof {
                    assert(seg@ =~= p@.subrange(i as int, j as int + 1));
                }
                j += 1;
            }
            proof {
                lemma_nul_len_characterize(rest, j - i);
                assert(rest.take(nul_len(rest)) =~= p@.subrange(i as int, j as int));
                assert(rest.skip(nul_len(rest)) =~= p@.skip(j as int));
                assert(split_nul(rest) == seq![seg@] + split_nul(p@.skip(j as int)));
            }
            let ghost oldr = r@;
            r.push(seg);
            proof {
                assert(segs_view(r@) =~= segs_view(oldr).push(p@.subrange(i as int, j as int)));
                assert(segs_view(oldr) + split_nul(p@.skip(i as int)) =~= segs_view(r@)
                    + split_nul(p@.skip(j as int)));
            }
            i = j;
        }
    }
    proof {
        assert(p@.skip(p@.len() as int) =~= Seq::<char>::empty());
        assert(segs_view(r@) =~= split_nul(p@));
    }
    r
}

/// Length of the leading run without a comma.
pub open spec fn comma_len(s: Seq<char>) -> int
    decreases s.len(),
{
    if s.len() == 0 || s[0] == ',' {
        0
    } else {
        1 + comma_len(s.skip(1))
    }
}

pub proof fn lemma_comma_len(s: Seq<char>)
    ensures
        0 <= comma_len(s) <= s.len(),
        forall|t: int| 0 <= t < comma_len(s) ==> s[t] != ',',
        comma_len(s) < s.len() ==> s[comma_len(s)] == ',',
    decreases s.len(),
{
    if s.len() > 0 && s[0] != ',' {
        lemma_comma_len(s.skip(1));
        assert forall|t: int| 0 <= t < comma_len(s) implies s[t] != ',' by {
            if t > 0 {
                assert(s.skip(1)[t - 1] == s[t]);
                assert(s.skip(1)[t - 1] != ',');
            }
        }
        if comma_len(s) < s.len() {
            assert(s.skip(1)[comma_len(s) - 1] == s[comma_len(s)]);
        }
    }
}

proof fn lemma_comma_len_characterize(s: Seq<char>, m: int)
    requires
        0 <= m <= s.len(),
        forall|t: int| 0 <= t < m ==> s[t] != ',',
        m < s.len() ==> s[m] == ',',
    ensures
        comma_len(s) == m,
    decreases m,
{
    if m > 0 {
        assert(forall|t: int| 0 <= t < s.skip(1).len() ==> s.skip(1)[t] == s[t + 1]);
        lemma_comma_len_characterize(s.skip(1), m - 1);
    }
}

/// A comma-separated run of one- or two-digit hexadecimal bytes, whitespace
/// allowed around each and empty items skipped.
pub open spec fn spec_parse_hex_bytes(s: Seq<char>) -> Result<Seq<u8>, Seq<char>>
    decreases s.len(),
    via spec_parse_hex_bytes_decreases
{
    if s.len() == 0 {
        Ok(Seq::empty())
    } else {
        let j = comma_len(s);
        let part = trim_spec(s.take(j));
        let restres: Result<Seq<u8>, Seq<char>> = if j >= s.len() {
            Ok(Seq::empty())
        } else {
            spec_parse_hex_bytes(s.skip(j + 1))
        };
        if part.len() == 0 {
            restres
        } else if is_radix_seq(part, 16) && radix_val(part, 16) <= 255 {
            match restres {
                Ok(bs) => Ok(seq![radix_val(part, 16) as u8] + bs),
                Err(e) => Err(e),
            }
        } else {
            Err("invalid hex byte"@)
        }
    }
}

#[via_fn]
proof fn spec_parse_hex_bytes_decreases(s: Seq<char>) {
    lemma_comma_len(s);
}

pub fn parse_hex_bytes(v: &Vec<char>) -> (r: Result<Vec<u8>, &'static str>)
    ensures
        match r {
            Ok(bs) => spec_parse_hex_bytes(v@) == Ok::<Seq<u8>, Seq<char>>(bs@),
            Err(m) => spec_parse_hex_bytes(v@) == Err::<Seq<u8>, Seq<char>>(m@),
        },
{
    let mut out: Vec<u8> = Vec::new();
    let mut i: usize = 0;
    proof {
        assert(v@.skip(0) =~= v@);
    }
    while i < v.len()
        invariant
            i <= v@.len(),
            spec_parse_hex_bytes(v@) == (match spec_parse_hex_bytes(v@.skip(i as int)) {
                Ok(bs) => Ok::<Seq<u8>, Seq<char>>(out@ + bs),
                Err(e) => Err::<Seq<u8>, Seq<char>>(e),
            }),
        decreases v@.len() - i,
    {
        let ghost rest = v@.skip(i as int);
        let ghost oldout = out@;
        let mut j: usize = i;
        while j < v.len() && v[j] != ','
            invariant
                i <= j <= v@.len(),
                forall|t: int| i <= t < j ==> v@[t] != ',',
            decreases v@.len() - j,
        {
            j += 1;
        }
        proof {
            lemma_comma_len_characterize(rest, j - i);
            assert(rest.take(comma_len(rest)) =~= v@.subrange(i as int, j as int));
            if (j as int) < v@.len() {
                assert(rest.skip(comma_len(rest) + 1) =~= v@.skip(j as int + 1));
            } else {
                assert(v@.skip(v@.len() as int) =~= Seq::<char>::empty());
            }
        }
        let chunk = sub_chars(v, i, j);
        let part = trim_chars(&chunk);
        let ghost pv = part@;
        if part.len() > 0 {
            match parse_radix_u64(&part, 16) {
                Some(val) => {
                    if val > 255 {
                        return Err("invalid hex byte");
                    }
                    out.push(val as u8);
                },
                None => {
                    return Err("invalid hex byte");
                },
            }
        }
        proof {
            let nexti: int = if (j as int) < v@.len() {
                j as int + 1
            } else {
                v@.len() as int
            };
            let restres: Result<Seq<u8>, Seq<char>> = spec_parse_hex_bytes(v@.skip(nexti));
            if pv.len() == 0 {
                assert(spec_parse_hex_bytes(rest) == restres);
            } else {
                assert(spec_parse_hex_bytes(rest) == (match restres {
                    Ok(bs) => Ok::<Seq<u8>, Seq<char>>(seq![radix_val(pv, 16) as u8] + bs),
                    Err(e) => Err::<Seq<u8>, Seq<char>>(e),
                }));
                match restres {
                    Ok(bs) => {
                        assert(oldout + (seq![radix_val(pv, 16) as u8] + bs) =~= out@ + bs);
                    },
                    Err(_) => {
                    },
                }
            }
        }
        if j == v.len() {
            i = j;
        } else {
            i = j + 1;
        }
    }
    proof {
        assert(v@.skip(v@.len() as int) =~= Seq::<char>::empty());
        assert(out@ + Seq::<u8>::empty() =~= out@);
    }
    Ok(out)
}


// ---------------------------------------------------------------------------
// Typed payloads.
// ---------------------------------------------------------------------------

/// Decode the payload after the `=`: quoted strings, `str(2):`, `str(7):`,
/// `dword:`, `qword:`, and the `hex...` spellings.  A `hex(b):` payload of
/// exactly eight bytes reads back as a 64-bit integer.
pub open spec fn spec_parse_value_data(data: Seq<char>, name: Seq<char>) -> Result<
    ValueView,
    Seq<char>,
> {
    if starts_with(data, "str(2):"@) {
        match spec_parse_quoted(data.skip(7)) {
            Ok(t) => Ok(ValueView { name, data: ValueDataView::VExpand(t) }),
            Err(m) => Err(m),
        }
    } else if starts_with(data, "str(7):"@) {
        match spec_parse_quoted(data.skip(7)) {
            Ok(t) => Ok(ValueView { name, data: ValueDataView::VMulti(split_nul(t)) }),
            Err(m) => Err(m),
        }
    } else if starts_with(data, "dword:"@) {
        let h = trim_spec(data.skip(6));
        if is_radix_seq(h, 16) && radix_val(h, 16) <= u32::MAX {
            Ok(ValueView { name, data: ValueDataView::VDword(radix_val(h, 16) as u32) })
        } else {
            Err("invalid dword value"@)
        }
    } else if starts_with(data, "qword:"@) {
        let h = trim_spec(data.skip(6));
        if is_radix_seq(h, 16) && radix_val(h, 16) <= u64::MAX {
            Ok(ValueView { name, data: ValueDataView::VQword(radix_val(h, 16) as u64) })
        } else {
            Err("invalid qword value"@)
        }
    } else if starts_with(data, "hex("@) {
        match find_close(data) {
            Some(end) => {
                let th = data.subrange(4, end);
                if is_radix_seq(th, 16) && radix_val(th, 16) <= u32::MAX {
                    let ty = radix_val(th, 16) as u32;
                    match spec_parse_hex_bytes(data.skip(end + 2)) {
                        Ok(bs) => {
                            if ty == REG_QWORD && bs.len() == 8 {
                                Ok(
                                    ValueView {
                                        name,
                                        data: ValueDataView::VQword(le_val(bs) as u64),
                                    },
                                )
                            } else {
                                Ok(ValueView { name, data: ValueDataView::VBinary(bs, ty) })
                            }
                        },
                        Err(m) => Err(m),
                    }
                } else {
                    Err("invalid hex type"@)
                }
            },
            None => Err("malformed hex type"@),
        }
    } else if starts_with(data, "hex:"@) {
        match spec_parse_hex_bytes(data.skip(4)) {
            Ok(bs) => Ok(ValueView { name, data: ValueDataView::VBinary(bs, REG_BINARY) }),
            Err(m) => Err(m),
        }
    } else {
        match spec_parse_quoted(data) {
            Ok(t) => Ok(ValueView { name, data: ValueDataView::VString(t) }),
            Err(m) => Err(m),
        }
    }
}

fn parse_value_data(data: &Vec<char>, name: &Vec<char>) -> (r: Result<RegistryValue, &'static str>)
    ensures
        match r {
            Ok(v) => spec_parse_value_data(data@, name@) == Ok::<ValueView, Seq<char>>(v@),
            Err(m) => spec_parse_value_data(data@, name@) == Err::<ValueView, Seq<char>>(m@),
        },
{
    let nm = chars_to_string(name);
    if starts_with_lit(data, "str(2):") {
        proof {
            assert("str(2):"@.len() == 7) by {
                reveal_strlit("str(2):");
            }
        }
        let rest = skip_chars(data, 7);
        match parse_quoted_string(&rest) {
            Ok(t) => Ok(
                RegistryValue { name: nm, data: RegistryValueData::ExpandString(chars_to_string(&t)) },
            ),
            Err(m) => Err(m),
        }
    } else if starts_with_lit(data, "str(7):") {
        proof {
            assert("str(7):"@.len() == 7) by {
                reveal_strlit("str(7):");
            }
        }
        let rest = skip_chars(data, 7);
        match parse_quoted_string(&rest) {
            Ok(t) => {
                let parts = split_nul_chars(&t);
                let mut items: Vec<String> = Vec::new();
                let mut i: usize = 0;
                while i < parts.len()
                    invariant
                        i <= parts@.len(),
                        items@.len() == i,
                        forall|j: int| 0 <= j < i ==> (#[trigger] items@[j])@ == parts@[j]@,
                    decreases parts@.len() - i,
                {
                    items.push(chars_to_string(&parts[i]));
                    i += 1;
                }
                proof {
                    assert(Seq::new(items@.len(), |k: int| items@[k]@) =~= segs_view(parts@));
                }
                Ok(RegistryValue { name: nm, data: RegistryValueData::MultiString(items) })
            },
            Err(m) => Err(m),
        }
    } else if starts_with_lit(data, "dword:") {
        proof {
            assert("dword:"@.len() == 6) by {
                reveal_strlit("dword:");
            }
        }
        let rest = skip_chars(data, 6);
        let h = trim_chars(&rest);
        match parse_radix_u64(&h, 16) {
            Some(val) => {
                if val <= 0xFFFF_FFFF {
                    Ok(RegistryValue { name: nm, data: RegistryValueData::Dword(val as u32) })
                } else {
                    Err("invalid dword value")
                }
            },
            None => Err("invalid dword value"),
        }
    } else if starts_with_lit(data, "qword:") {
        proof {
            assert("qword:"@.len() == 6) by {
                reveal_strlit("qword:");
            }
        }
        let rest = skip_chars(data, 6);
        let h = trim_chars(&rest);
        match parse_radix_u64(&h, 16) {
            Some(val) => Ok(RegistryValue { name: nm, data: RegistryValueData::Qword(val) }),
            None => Err("invalid qword value"),
        }
    } else if starts_with_lit(data, "hex(") {
        proof {
            assert("hex("@.len() == 4) by {
                reveal_strlit("hex(");
            }
        }
        match find_close_exec(data) {
            Some(end) => {
                proof {
                    lemma_find_close(data@);
                }
                let th = sub_chars(data, 4, if end >= 4 {
                    end
                } else {
                    4
                });
                proof {
                    if (end as int) < 4 {
                        assert(data@[end as int] == ')');
                        assert(starts_with(data@, "hex("@));
                        assert(data@.take(4)[end as int] == data@[end as int]);
                        assert("hex("@[end as int] == ')') by {
                            reveal_strlit("hex(");
                        }
                        assert(false) by {
                            reveal_strlit("hex(");
                        }
                    }
                }
                match parse_radix_u64(&th, 16) {
                    Some(tyv) => {
                        if tyv <= 0xFFFF_FFFF {
                            let ty = tyv as u32;
                            let dn = data.len();
                            proof {
                                assert(end + 2 <= dn);
                            }
                            let rest = skip_chars(data, end + 2);
                            match parse_hex_bytes(&rest) {
                                Ok(bs) => {
                                    if ty == REG_QWORD && bs.len() == 8 {
                                        let q = u64_from_le8(&bs);
                                        Ok(
                                            RegistryValue {
                                                name: nm,
                                                data: RegistryValueData::Qword(q),
                                            },
                                        )
                                    } else {
                                        Ok(
                                            RegistryValue {
                                                name: nm,
                                                data: RegistryValueData::Binary(bs, ty),
                                            },
                                        )
                                    }
                                },
                                Err(m) => Err(m),
                            }
                        } else {
                            Err("invalid hex type")
                        }
                    },
                    None => Err("invalid hex type"),
                }
            },
            None => Err("malformed hex type"),
        }
    } else if starts_with_lit(data, "hex:") {
        proof {
            assert("hex:"@.len() == 4) by {
                reveal_strlit("hex:");
            }
        }
        let rest = skip_chars(data, 4);
        match parse_hex_bytes(&rest) {
            Ok(bs) => Ok(RegistryValue { name: nm, data: RegistryValueData::Binary(bs, 3) }),
            Err(m) => Err(m),
        }
    } else {
        match parse_quoted_string(data) {
            Ok(t) => Ok(
                RegistryValue { name: nm, data: RegistryValueData::String(chars_to_string(&t)) },
            ),
            Err(m) => Err(m),
        }
    }
}

// ---------------------------------------------------------------------------
// Value lines.
// ---------------------------------------------------------------------------

/// Decode one (already joined) value line: `@=` or a quoted name, then the
/// payload.
pub open spec fn spec_parse_value_line(buffer: Seq<char>) -> Result<ValueView, Seq<char>> {
    if starts_with(buffer, "@="@) {
        let after = trim_start_spec(buffer.skip(2));
        let after2 = if after.len() > 0 && after[0] == '=' {
            trim_start_spec(after.skip(1))
        } else {
            after
        };
        spec_parse_value_data(after2, Seq::empty())
    } else if buffer.len() > 0 && buffer[0] == '"' {
        match find_name_end(buffer, 1) {
            Some(end) => {
                let name = spec_unescape(buffer.subrange(1, end));
                let after = trim_start_spec(buffer.skip(end + 1));
                let after2 = if after.len() > 0 && after[0] == '=' {
                    trim_start_spec(after.skip(1))
                } else {
                    after
                };
                spec_parse_value_data(after2, name)
            },
            None => Err("unterminated value name"@),
        }
    } else {
        Err("invalid value line"@)
    }
}

fn parse_value_line(buffer: &Vec<char>) -> (r: Result<RegistryValue, &'static str>)
    ensures
        match r {
            Ok(v) => spec_parse_value_line(buffer@) == Ok::<ValueView, Seq<char>>(v@),
            Err(m) => spec_parse_value_line(buffer@) == Err::<ValueView, Seq<char>>(m@),
        },
{
    if starts_with_lit(buffer, "@=") {
        proof {
            assert("@="@.len() == 2) by {
                reveal_strlit("@=");
            }
        }
        let rest = skip_chars(buffer, 2);
        let after = trim_start_chars(&rest);
        let after2 = if after.len() > 0 && after[0] == '=' {
            let a = skip_chars(&after, 1);
            trim_start_chars(&a)
        } else {
            after
        };
        let name: Vec<char> = Vec::new();
        proof {
            assert(name@ =~= Seq::<char>::empty());
        }
        parse_value_data(&after2, &name)
    } else if buffer.len() > 0 && buffer[0] == '"' {
        match find_name_end_exec(buffer, 1) {
            Some(end) => {
                let raw = sub_chars(buffer, 1, end);
                let name = unescape_string(&raw);
                let rest = skip_chars(buffer, end + 1);
                let after = trim_start_chars(&rest);
                let after2 = if after.len() > 0 && after[0] == '=' {
                    let a = skip_chars(&after, 1);
                    trim_start_chars(&a)
                } else {
                    after
                };
                parse_value_data(&after2, &name)
            },
            None => Err("unterminated value name"),
        }
    } else {
        proof {
            if starts_with(buffer@, "@="@) {
                assert(buffer@.take(2)[0] == buffer@[0]);
                assert("@="@[0] == '@') by {
                    reveal_strlit("@=");
                }
            }
        }
        Err("invalid value line")
    }
}

// ---------------------------------------------------------------------------
// Key headers.
// ---------------------------------------------------------------------------

/// Decode `[<escaped-path>] <posix-seconds>?`: the raw path between the
/// brackets and the second count, which is absent when the field is missing
/// or not a representable number.
pub open spec fn spec_parse_key_header(t: Seq<char>) -> Result<(Seq<char>, Option<u64>), Seq<char>> {
    match find_char(t, ']') {
        Some(end) => {
            let path = trim_spec(t.subrange(1, end));
            let rest = trim_spec(t.skip(end + 1));
            let ts: Option<u64> = if rest.len() > 0 && is_radix_seq(rest, 10) && radix_val(
                rest,
                10,
            ) <= u64::MAX {
                Some(radix_val(rest, 10) as u64)
            } else {
                None
            };
            Ok((path, ts))
        },
        None => Err("malformed key header: "@ + t),
    }
}

fn parse_key_header(t: &Vec<char>) -> (r: Result<(Vec<char>, Option<u64>), String>)
    requires
        t@.len() > 0,
        t@[0] == '[',
    ensures
        match r {
            Ok(pv) => spec_parse_key_header(t@) == Ok::<(Seq<char>, Option<u64>), Seq<char>>(
                (pv.0@, pv.1),
            ),
            Err(m) => spec_parse_key_header(t@) == Err::<(Seq<char>, Option<u64>), Seq<char>>(
                m@,
            ),
        },
{
    match find_char_exec(t, ']') {
        Some(end) => {
            proof {
                lemma_find_char(t@, ']');
            }
            let inner = sub_chars(t, 1, if end >= 1 {
                end
            } else {
                1
            });
            proof {
                if (end as int) < 1 {
                    assert(t@[end as int] == ']');
                    assert(t@[0] == '[');
                    assert(false);
                }
            }
            let path = trim_chars(&inner);
            let tn = t.len();
            proof {
                assert(end + 1 <= tn);
            }
            let restr = skip_chars(t, end + 1);
            let rest = trim_chars(&restr);
            let ts: Option<u64> = if rest.len() == 0 {
                None
            } else {
                parse_radix_u64(&rest, 10)
            };
            Ok((path, ts))
        },
        None => {
            let mut m = String::from_str("malformed key header: ");
            m.append(chars_to_string(t).as_str());
            proof {
                assert(m@ =~= "malformed key header: "@ + t@);
            }
            Err(m)
        },
    }
}

// ---------------------------------------------------------------------------
// Continuation lines.
// ---------------------------------------------------------------------------

/// Trailing backslashes removed.
pub open spec fn strip_bs(s: Seq<char>) -> Seq<char>
    decreases s.len(),
{
    if s.len() > 0 && s.last() == '\\' {
        strip_bs(s.drop_last())
    } else {
        s
    }
}

fn strip_bs_exec(v: Vec<char>) -> (r: Vec<char>)
    ensures
        r@ == strip_bs(v@),
{
    let mut r = v;
    while r.len() > 0 && r[r.len() - 1] == '\\'
        invariant
            strip_bs(v@) == strip_bs(r@),
        decreases r@.len(),
    {
        let ghost pre = r@;
        r.pop();
        proof {
            assert(r@ =~= pre.drop_last());
        }
    }
    r
}

/// Join a value line with its continuation lines: while the buffer ends in a
/// backslash, drop it and append the next line's trimmed text.  Returns the
/// joined line and how many further lines were consumed.
pub open spec fn join_cont(rest: Seq<Seq<char>>, buf: Seq<char>) -> (Seq<char>, nat)
    decreases rest.len(),
{
    let te = trim_end_spec(buf);
    if te.len() > 0 && te.last() == '\\' {
        let b2 = trim_end_spec(strip_bs(buf));
        if rest.len() == 0 {
            (b2, 0)
        } else {
            let (b3, c) = join_cont(rest.skip(1), b2 + trim_spec(rest[0]));
            (b3, c + 1)
        }
    } else {
        (buf, 0)
    }
}


pub proof fn lemma_join_cont_bound(rest: Seq<Seq<char>>, buf: Seq<char>)
    ensures
        join_cont(rest, buf).1 <= rest.len(),
    decreases rest.len(),
{
    let te = trim_end_spec(buf);
    if te.len() > 0 && te.last() == '\\' {
        let b2 = trim_end_spec(strip_bs(buf));
        if rest.len() > 0 {
            lemma_join_cont_bound(rest.skip(1), b2 + trim_spec(rest[0]));
        }
    }
}

fn join_value_lines(lines: &Vec<Vec<char>>, next: usize, first: Vec<char>) -> (r: (Vec<char>, usize))
    requires
        next <= lines@.len(),
    ensures
        r.0@ == join_cont(segs_view(lines@).skip(next as int), first@).0,
        r.1 as nat == join_cont(segs_view(lines@).skip(next as int), first@).1,
        next + r.1 <= lines@.len(),
    decreases lines@.len() - next,
{
    let ghost rest = segs_view(lines@).skip(next as int);
    let te = trim_end_chars(&first);
    if te.len() > 0 && te[te.len() - 1] == '\\' {
        let b2 = trim_end_chars(&strip_bs_exec(first));
        if next == lines.len() {
            proof {
                assert(rest.len() == 0);
            }
            (b2, 0)
        } else {
            proof {
                assert(rest[0] == lines@[next as int]@);
                assert(rest.skip(1) =~= segs_view(lines@).skip(next as int + 1));
            }
            let tl = trim_chars(&lines[next]);
            let mut b = b2;
            crate::text::push_chars(&mut b, &tl);
            let (r0, c) = join_value_lines(lines, next + 1, b);
            (r0, c + 1)
        }
    } else {
        (first, 0)
    }
}

/// Leading and trailing double quotes removed.
pub open spec fn strip_lead_q(s: Seq<char>) -> Seq<char>
    decreases s.len(),
{
    if s.len() > 0 && s[0] == '"' {
        strip_lead_q(s.skip(1))
    } else {
        s
    }
}

pub open spec fn strip_trail_q(s: Seq<char>) -> Seq<char>
    decreases s.len(),
{
    if s.len() > 0 && s.last() == '"' {
        strip_trail_q(s.drop_last())
    } else {
        s
    }
}

pub open spec fn trim_quotes(s: Seq<char>) -> Seq<char> {
    strip_trail_q(strip_lead_q(s))
}

pub fn trim_quotes_pub(v: Vec<char>) -> (r: Vec<char>)
    ensures
        r@ == trim_quotes(v@),
{
    let mut start: usize = 0;
    proof {
        assert(v@.skip(0) =~= v@);
    }
    while start < v.len() && v[start] == '"'
        invariant
            start <= v@.len(),
            strip_lead_q(v@) == strip_lead_q(v@.skip(start as int)),
        decreases v@.len() - start,
    {
        proof {
            assert(v@.skip(start as int)[0] == v@[start as int]);
            assert(v@.skip(start as int).skip(1) =~= v@.skip(start as int + 1));
        }
        start += 1;
    }
    proof {
        if (start as int) < v@.len() {
            assert(v@.skip(start as int)[0] == v@[start as int]);
        }
        assert(strip_lead_q(v@) == v@.skip(start as int));
    }
    let mut r = crate::text::skip_chars(&v, start);
    while r.len() > 0 && r[r.len() - 1] == '"'
        invariant
            strip_trail_q(v@.skip(start as int)) == strip_trail_q(r@),
        decreases r@.len(),
    {
        let ghost pre = r@;
        r.pop();
        proof {
            assert(r@ =~= pre.drop_last());
        }
    }
    r
}

// ---------------------------------------------------------------------------
// The parse itself.
// ---------------------------------------------------------------------------
pub struct ParseStateView {
    pub root: KeyView,
    pub base: Seq<char>,
    pub arch: Architecture,
    pub current: Option<Seq<Seq<char>>>,
}

/// Header seconds above the representable FILETIME range saturate.
pub open spec fn clamp_seconds(ts: u64) -> u64 {
    if ts <= MAX_FILETIME_SECONDS {
        ts
    } else {
        MAX_FILETIME_SECONDS
    }
}

/// The line-by-line parse: comments, the relative base, the architecture
/// tag, key headers (created in loading mode, never dirty), key metadata,
/// and value lines with their continuations; anything else is skipped.
pub open spec fn parse_from(lines: Seq<Seq<char>>, i: int, st: ParseStateView) -> Result<
    ParseStateView,
    ParseErrorView,
>
    decreases lines.len() - i,
    via parse_from_decreases
{
    if i < 0 || i >= lines.len() {
        Ok(st)
    } else {
        let t = trim_spec(lines[i]);
        if t.len() == 0 {
            parse_from(lines, i + 1, st)
        } else if starts_with(t, ";; All keys relative to "@) {
            parse_from(
                lines,
                i + 1,
                ParseStateView { base: t.skip(";; All keys relative to "@.len() as int), ..st },
            )
        } else if t[0] == ';' {
            parse_from(lines, i + 1, st)
        } else if starts_with(t, "#arch="@) {
            let a = spec_from_tag(t.skip(6));
            parse_from(
                lines,
                i + 1,
                ParseStateView {
                    arch: if a is Some {
                        a.unwrap()
                    } else {
                        st.arch
                    },
                    ..st
                },
            )
        } else if t[0] == '[' {
            match spec_parse_key_header(t) {
                Ok(pt) => {
                    let segs = split_path(spec_unescape_path(pt.0));
                    let r1 = st.root.create_path(segs, false);
                    let ft: u64 = match pt.1 {
                        Some(secs) => spec_timestamp_to_filetime(clamp_seconds(secs)),
                        None => 0,
                    };
                    let r2 = r1.meta_at_spec(segs, MetaUpdateView::Time(ft));
                    parse_from(
                        lines,
                        i + 1,
                        ParseStateView { root: r2, current: Some(segs), ..st },
                    )
                },
                Err(m) => Err(ParseErrorView::Line(i + 1, m)),
            }
        } else if starts_with(t, "#time="@) {
            let st2 = if st.current is Some {
                let h = trim_spec(t.skip(6));
                if is_radix_seq(h, 16) && radix_val(h, 16) <= u64::MAX {
                    ParseStateView {
                        root: st.root.meta_at_spec(
                            st.current.unwrap(),
                            MetaUpdateView::Time(radix_val(h, 16) as u64),
                        ),
                        ..st
                    }
                } else {
                    st
                }
            } else {
                st
            };
            parse_from(lines, i + 1, st2)
        } else if starts_with(t, "#class="@) {
            let st2 = if st.current is Some {
                let cls = trim_spec(t.skip(7));
                let unq = trim_quotes(cls);
                ParseStateView {
                    root: st.root.meta_at_spec(
                        st.current.unwrap(),
                        MetaUpdateView::ClassName(Some(spec_unescape(unq))),
                    ),
                    ..st
                }
            } else {
                st
            };
            parse_from(lines, i + 1, st2)
        } else if starts_with(t, "#link"@) {
            let st2 = if st.current is Some {
                ParseStateView {
                    root: st.root.meta_at_spec(st.current.unwrap(), MetaUpdateView::Symlink(true)),
                    ..st
                }
            } else {
                st
            };
            parse_from(lines, i + 1, st2)
        } else if t[0] == '@' || t[0] == '"' {
            let bc = join_cont(lines.skip(i + 1), t);
            match spec_parse_value_line(bc.0) {
                Ok(vv) => match st.current {
                    Some(cur) => parse_from(
                        lines,
                        i + 1 + bc.1,
                        ParseStateView {
                            root: st.root.set_value_at_spec(cur, vv.name, vv, false),
                            ..st
                        },
                    ),
                    None => Err(ParseErrorView::Line(i + 1, "value without key"@)),
                },
                Err(m) => Err(ParseErrorView::Line(i + 1, m)),
            }
        } else {
            parse_from(lines, i + 1, st)
        }
    }
}

#[via_fn]
proof fn parse_from_decreases(lines: Seq<Seq<char>>, i: int, st: ParseStateView) {
    if 0 <= i < lines.len() {
        let t = trim_spec(lines[i]);
        lemma_join_cont_bound(lines.skip(i + 1), t);
    }
}

pub open spec fn initial_state() -> ParseStateView {
    ParseStateView {
        root: KeyView::fresh(Seq::<char>::empty(), false),
        base: Seq::empty(),
        arch: Architecture::Unknown,
        current: None,
    }
}

/// The whole parse: the first line must be the exact format header, then the
/// line grammar runs over the rest.
pub open spec fn spec_load(text: Seq<char>) -> Result<ParseStateView, ParseErrorView> {
    let lines = split_lines(text);
    if lines.len() == 0 {
        Err(ParseErrorView::InvalidHeader)
    } else if trim_spec(lines[0]) != "WINE REGISTRY Version 2"@ {
        Err(ParseErrorView::InvalidHeader)
    } else {
        parse_from(lines, 1, initial_state())
    }
}

pub open spec fn opt_segs(c: Option<Vec<Vec<char>>>) -> Option<Seq<Seq<char>>> {
    match c {
        Some(v) => Some(segs_view(v@)),
        None => None,
    }
}

pub struct RegistryParser;

impl RegistryParser {
    /// Parse the Wine v2 textual format.
    #[verifier::rlimit(100)]
    pub fn load_from_text(&self, text: &str) -> (r: Result<LoadResult, ParseError>)
        ensures
            match r {
                Ok(lr) => (spec_load(text@) matches Ok(st) && lr.root_key@ == st.root
                    && lr.relative_base@ == st.base && lr.architecture == st.arch)
                    && lr.root_key@.wf(),
                Err(e) => spec_load(text@) == Err::<ParseStateView, ParseErrorView>(e@),
            },
    {
        let tc = str_chars(text);
        let lines = split_lines_chars(&tc);
        let ghost lv = split_lines(text@);
        if lines.len() == 0 {
            return Err(ParseError::InvalidHeader);
        }
        {
            let first = trim_chars(&lines[0]);
            let hdr = str_chars("WINE REGISTRY Version 2");
            if !crate::text::chars_eq(&first, &hdr) {
                proof {
                    assert(lines@[0]@ == lv[0]);
                }
                return Err(ParseError::InvalidHeader);
            }
            proof {
                assert(lines@[0]@ == lv[0]);
            }
        }
        let mut root = RegistryKey::create_root();
        let mut base = String::new();
        let mut arch = Architecture::Unknown;
        let mut current: Option<Vec<Vec<char>>> = None;
        let mut i: usize = 1;
        proof {
            assert(parse_from(lv, 1, initial_state()) == parse_from(
                lv,
                1,
                ParseStateView { root: root@, base: base@, arch: arch, current: opt_segs(current) },
            ));
        }
        while i < lines.len()
            invariant
                root@.wf(),
                1 <= i <= lines@.len(),
                lv == split_lines(text@),
                segs_view(lines@) == lv,
                lines@.len() == lv.len(),
                spec_load(text@) == parse_from(
                    lv,
                    i as int,
                    ParseStateView {
                        root: root@,
                        base: base@,
                        arch: arch,
                        current: opt_segs(current),
                    },
                ),
            decreases lines@.len() - i,
        {
            let ghost stv = ParseStateView {
                root: root@,
                base: base@,
                arch: arch,
                current: opt_segs(current),
            };
            proof {
                assert(lines@[i as int]@ == lv[i as int]);
            }
            let t = trim_chars(&lines[i]);
            let ghost tv = trim_spec(lv[i as int]);
            if t.len() == 0 {
                i += 1;
                continue ;
            }
            if starts_with_lit(&t, ";; All keys relative to ") {
                let rb = str_chars(";; All keys relative to ");
                let rest = crate::text::skip_chars(&t, rb.len());
                base = chars_to_string(&rest);
                i += 1;
                continue ;
            }
            if t[0] == ';' {
                i += 1;
                continue ;
            }
            if starts_with_lit(&t, "#arch=") {
                proof {
                    assert("#arch="@.len() == 6) by {
                        reveal_strlit("#arch=");
                    }
                }
                let rest = crate::text::skip_chars(&t, 6);
                match Architecture::from_tag(chars_to_string(&rest).as_str()) {
                    Some(a) => {
                        arch = a;
                    },
                    None => {
                    },
                }
                i += 1;
                continue ;
            }
            if t[0] == '[' {
                match parse_key_header(&t) {
                    Ok((rawpath, ts)) => {
                        let unesc = unescape_key_path(&rawpath);
                        let segs = split_path_chars(&unesc);
                        root.create_segments(&segs, 0, false);
                        let ft: u64 = match ts {
                            Some(secs) => {
                                let tsc = if secs <= MAX_FILETIME_SECONDS {
                                    secs
                                } else {
                                    MAX_FILETIME_SECONDS
                                };
                                timestamp_to_filetime(tsc)
                            },
                            None => 0,
                        };
                        root.update_meta_at(&segs, 0, MetaUpdate::Time(ft));
                        proof {
                            assert(segs_view(segs@).skip(0) =~= segs_view(segs@));
                        }
                        current = Some(segs);
                        i += 1;
                        continue ;
                    },
                    Err(m) => {
                        return Err(ParseError::Line { line: i + 1, msg: m });
                    },
                }
            }
            if starts_with_lit(&t, "#time=") {
                proof {
                    assert("#time="@.len() == 6) by {
                        reveal_strlit("#time=");
                    }
                }
                match &current {
                    Some(segs) => {
                        let rest = crate::text::skip_chars(&t, 6);
                        let h = trim_chars(&rest);
                        match parse_radix_u64(&h, 16) {
                            Some(val) => {
                                root.update_meta_at(segs, 0, MetaUpdate::Time(val));
                                proof {
                                    assert(segs_view(segs@).skip(0) =~= segs_view(segs@));
                                }
                            },
                            None => {
                            },
                        }
                    },
                    None => {
                    },
                }
                i += 1;
                continue ;
            }
            if starts_with_lit(&t, "#class=") {
                proof {
                    assert("#class="@.len() == 7) by {
                        reveal_strlit("#class=");
                    }
                }
                match &current {
                    Some(segs) => {
                        let rest = crate::text::skip_chars(&t, 7);
                        let cls = trim_chars(&rest);
                        let unq = trim_quotes_pub(cls);
                        let dec = unescape_string(&unq);
                        root.update_meta_at(
                            segs,
                            0,
                            MetaUpdate::ClassName(Some(chars_to_string(&dec))),
                        );
                        proof {
                            assert(segs_view(segs@).skip(0) =~= segs_view(segs@));
                        }
                    },
                    None => {
                    },
                }
                i += 1;
                continue ;
            }
            if starts_with_lit(&t, "#link") {
                match &current {
                    Some(segs) => {
                        root.update_meta_at(segs, 0, MetaUpdate::Symlink(true));
                        proof {
                            assert(segs_view(segs@).skip(0) =~= segs_view(segs@));
                        }
                    },
                    None => {
                    },
                }
                i += 1;
                continue ;
            }
            if t[0] == '@' || t[0] == '"' {
                let ghost tvc = t@;
                let (buf, consumed) = join_value_lines(&lines, i + 1, t);
                proof {
                    assert(segs_view(lines@).skip(i as int + 1) =~= lv.skip(i as int + 1));
                }
                match parse_value_line(&buf) {
                    Ok(value) => {
                        match &current {
                            Some(segs) => {
                                let name = value.name.clone();
                                root.set_value_at(segs, 0, name.as_str(), value, false);
                                proof {
                                    assert(segs_view(segs@).skip(0) =~= segs_view(segs@));
                                }
                                i = i + 1 + consumed;
                                continue ;
                            },
                            None => {
                                return Err(
                                    ParseError::Line {
                                        line: i + 1,
                                        msg: String::from_str("value without key"),
                                    },
                                );
                            },
                        }
                    },
                    Err(m) => {
                        return Err(ParseError::Line { line: i + 1, msg: String::from_str(m) });
                    },
                }
            }
            i += 1;
        }
        proof {
            assert(spec_load(text@) == Ok::<ParseStateView, ParseErrorView>(
                ParseStateView {
                    root: root@,
                    base: base@,
                    arch: arch,
                    current: opt_segs(current),
                },
            ));
        }
        Ok(LoadResult { root_key: root, relative_base: base, architecture: arch })
    }
}

} // verus!
