//! Line parser: classifies a single line of a tree listing into an optional
//! record of (depth, name, kind).
//!
//! A line is first stripped of a trailing `#` comment.  If the remainder
//! holds any box-drawing connector it is read in the tree dialect (each
//! vertical bar adds one level, an own branch marker adds one more);
//! otherwise in the indent dialect (each tab and each run of exactly four
//! spaces adds one level).  The remainder after the walk, trimmed of
//! surrounding whitespace, is the entry name; a trailing `/` marks a
//! directory and is stripped.  Blank lines, lone vertical bars and lines
//! whose name collapses to nothing yield no record.

use vstd::prelude::*;
use vstd::string::StrSliceExecFns;

verus! {

/// The characters this parser trims as whitespace: the Unicode
/// `White_Space` set, the one `str::trim` and `char::is_whitespace` go by.
pub open spec fn is_blank(c: char) -> bool {
    ||| c == '\t'
    ||| c == '\n'
    ||| c == '\u{B}'
    ||| c == '\u{C}'
    ||| c == '\r'
    ||| c == ' '
    ||| c == '\u{85}'
    ||| c == '\u{A0}'
    ||| c == '\u{1680}'
    ||| c == '\u{2000}'
    ||| c == '\u{2001}'
    ||| c == '\u{2002}'
    ||| c == '\u{2003}'
    ||| c == '\u{2004}'
    ||| c == '\u{2005}'
    ||| c == '\u{2006}'
    ||| c == '\u{2007}'
    ||| c == '\u{2008}'
    ||| c == '\u{2009}'
    ||| c == '\u{200A}'
    ||| c == '\u{2028}'
    ||| c == '\u{2029}'
    ||| c == '\u{202F}'
    ||| c == '\u{205F}'
    ||| c == '\u{3000}'
}

/// Whether `c` is in the whitespace set [`is_blank`] describes.
fn blank_char(c: char) -> (b: bool)
    ensures
        b == is_blank(c),
{
    c == '\t' || c == '\n' || c == '\u{B}' || c == '\u{C}' || c == '\r' || c == ' '
        || c == '\u{85}' || c == '\u{A0}' || c == '\u{1680}' || c == '\u{2000}' || c == '\u{2001}'
        || c == '\u{2002}' || c == '\u{2003}' || c == '\u{2004}' || c == '\u{2005}'
        || c == '\u{2006}' || c == '\u{2007}' || c == '\u{2008}' || c == '\u{2009}'
        || c == '\u{200A}' || c == '\u{2028}' || c == '\u{2029}' || c == '\u{202F}'
        || c == '\u{205F}' || c == '\u{3000}'
}

/// The box-drawing characters whose presence selects the tree dialect.
pub open spec fn is_connector(c: char) -> bool {
    c == '│' || c == '├' || c == '└'
}

/// `s` without its leading whitespace.
pub open spec fn trim_front(s: Seq<char>) -> Seq<char>
    decreases s.len(),
{
    if s.len() > 0 && is_blank(s[0]) {
        trim_front(s.drop_first())
    } else {
        s
    }
}

/// `s` without its trailing whitespace.
pub open spec fn trim_back(s: Seq<char>) -> Seq<char>
    decreases s.len(),
{
    if s.len() > 0 && is_blank(s.last()) {
        trim_back(s.drop_last())
    } else {
        s
    }
}

/// `s` without surrounding whitespace.
pub open spec fn trimmed(s: Seq<char>) -> Seq<char> {
    trim_back(trim_front(s))
}

/// The prefix of `s` that precedes its first `#`, or all of `s` when it has
/// none: the part of a line that is not a comment.
pub open spec fn before_hash(s: Seq<char>) -> Seq<char>
    decreases s.len(),
{
    if s.len() == 0 {
        s
    } else if s[0] == '#' {
        Seq::empty()
    } else {
        seq![s[0]] + before_hash(s.drop_first())
    }
}

/// Trims `s`, returning a slice of it.
pub fn trim_str<'a>(s: &'a str) -> (r: &'a str)
    ensures
        r@ == trimmed(s@),
{
    let len = s.unicode_len();
    proof {
        assert(s@.subrange(0, len as int) =~= s@);
    }
    let mut start: usize = 0;
    loop
        invariant
            start <= len,
            len == s@.len(),
            trim_front(s@) == trim_front(s@.subrange(start as int, len as int)),
        ensures
            start <= len,
            trim_front(s@) == s@.subrange(start as int, len as int),
        decreases len - start,
    {
        if start >= len {
            assert(s@.subrange(start as int, len as int) =~= Seq::<char>::empty());
            break;
        }
        let c = s.get_char(start);
        if !blank_char(c) {
            break;
        }
        proof {
            assert(s@.subrange(start as int, len as int).drop_first() =~= s@.subrange(
                start as int + 1,
                len as int,
            ));
        }
        start = start + 1;
    }
    let mut end: usize = len;
    loop
        invariant
            start <= end <= len,
            len == s@.len(),
            trim_front(s@) == s@.subrange(start as int, len as int),
            trim_back(s@.subrange(start as int, len as int)) == trim_back(
                s@.subrange(start as int, end as int),
            ),
        ensures
            start <= end <= len,
            len == s@.len(),
            trimmed(s@) == s@.subrange(start as int, end as int),
        decreases end - start,
    {
        if end <= start {
            assert(s@.subrange(start as int, end as int) =~= Seq::<char>::empty());
            break;
        }
        let c = s.get_char(end - 1);
        if !blank_char(c) {
            assert(s@.subrange(start as int, end as int).last() == s@[end - 1]);
            break;
        }
        proof {
            assert(s@.subrange(start as int, end as int).drop_last() =~= s@.subrange(
                start as int,
                end as int - 1,
            ));
        }
        end = end - 1;
    }
    s.substring_char(start, end)
}

/// Index of the first `#` in `s`, or the length of `s` when it has none:
/// where the comment of a line begins.
fn comment_start(s: &str) -> (i: usize)
    ensures
        i <= s@.len(),
        before_hash(s@) == s@.subrange(0, i as int),
{
    let len = s.unicode_len();
    proof {
        assert(s@.subrange(0, 0) =~= Seq::<char>::empty());
        assert(s@.subrange(0, len as int) =~= s@);
        assert(Seq::<char>::empty() + before_hash(s@) =~= before_hash(s@));
    }
    let mut i: usize = 0;
    loop
        invariant
            i <= len,
            len == s@.len(),
            before_hash(s@) == s@.subrange(0, i as int) + before_hash(
                s@.subrange(i as int, len as int),
            ),
        ensures
            i <= len,
            len == s@.len(),
            before_hash(s@) == s@.subrange(0, i as int),
        decreases len - i,
    {
        if i >= len {
            assert(s@.subrange(i as int, len as int) =~= Seq::<char>::empty());
            assert(before_hash(s@) =~= s@.subrange(0, i as int));
            break;
        }
        let c = s.get_char(i);
        if c == '#' {
            assert(s@.subrange(i as int, len as int)[0] == '#');
            assert(before_hash(s@) =~= s@.subrange(0, i as int));
            break;
        }
        proof {
            let suffix = s@.subrange(i as int, len as int);
            assert(suffix.drop_first() =~= s@.subrange(i as int + 1, len as int));
            assert(before_hash(suffix) == seq![s@[i as int]] + before_hash(suffix.drop_first()));
            assert(s@.subrange(0, i as int) + seq![s@[i as int]] =~= s@.subrange(0, i as int + 1));
            assert(s@.subrange(0, i as int) + before_hash(suffix) =~= s@.subrange(0, i as int + 1)
                + before_hash(suffix.drop_first()));
        }
        i = i + 1;
    }
    proof {
        assert(s@.subrange(0, 0) =~= Seq::<char>::empty());
    }
    i
}

/// Whether any box-drawing connector occurs in `s`, which selects the tree
/// dialect for the line.
fn has_connector_in(s: &str) -> (b: bool)
    ensures
        b == exists|j: int| 0 <= j < s@.len() && is_connector(s@[j]),
{
    let len = s.unicode_len();
    let mut i: usize = 0;
    while i < len
        invariant
            i <= len,
            len == s@.len(),
            forall|j: int| 0 <= j < i ==> !is_connector(s@[j]),
        decreases len - i,
    {
        let c = s.get_char(i);
        if c == '│' || c == '├' || c == '└' {
            assert(is_connector(s@[i as int]));
            return true;
        }
        i = i + 1;
    }
    false
}

/// The indent-dialect walk over the start of a line: each tab and each run
/// of exactly four spaces adds one depth level, a stray single space is
/// absorbed, and any other character stops the walk.  Returns the depth and
/// the number of characters consumed.
pub open spec fn indent_walk(s: Seq<char>) -> (nat, nat)
    decreases s.len(),
{
    if s.len() == 0 {
        (0nat, 0nat)
    } else if s[0] == '\t' {
        let r = indent_walk(s.drop_first());
        ((r.0 + 1) as nat, (r.1 + 1) as nat)
    } else if s.len() >= 4 && s[0] == ' ' && s[1] == ' ' && s[2] == ' ' && s[3] == ' ' {
        let r = indent_walk(s.subrange(4, s.len() as int));
        ((r.0 + 1) as nat, (r.1 + 4) as nat)
    } else if s[0] == ' ' {
        let r = indent_walk(s.drop_first());
        (r.0, (r.1 + 1) as nat)
    } else {
        (0nat, 0nat)
    }
}

/// How much of `s` the indent walk consumes never exceeds its length.
pub proof fn lemma_indent_walk_consumed(s: Seq<char>)
    ensures
        indent_walk(s).1 <= s.len(),
    decreases s.len(),
{
    if s.len() == 0 {
    } else if s[0] == '\t' {
        lemma_indent_walk_consumed(s.drop_first());
    } else if s.len() >= 4 && s[0] == ' ' && s[1] == ' ' && s[2] == ' ' && s[3] == ' ' {
        lemma_indent_walk_consumed(s.subrange(4, s.len() as int));
    } else if s[0] == ' ' {
        lemma_indent_walk_consumed(s.drop_first());
    }
}

/// Parses a line under the indent dialect: returns the depth given by the
/// leading tabs and four-space runs, and the trimmed remainder as the name.
pub fn parse_tab_based(s: &str) -> (r: (usize, String))
    ensures
        r.0 == indent_walk(s@).0,
        r.1@ == trimmed(s@.subrange(indent_walk(s@).1 as int, s@.len() as int)),
{
    let len = s.unicode_len();
    proof {
        assert(s@.subrange(0, len as int) =~= s@);
    }
    let mut i: usize = 0;
    let mut depth: usize = 0;
    loop
        invariant
            i <= len,
            depth <= i,
            len == s@.len(),
            indent_walk(s@).0 == depth + indent_walk(s@.subrange(i as int, len as int)).0,
            indent_walk(s@).1 == i + indent_walk(s@.subrange(i as int, len as int)).1,
        ensures
            i <= len,
            len == s@.len(),
            indent_walk(s@).0 == depth,
            indent_walk(s@).1 == i,
        decreases len - i,
    {
        if i >= len {
            assert(s@.subrange(i as int, len as int) =~= Seq::<char>::empty());
            break;
        }
        let ghost suffix = s@.subrange(i as int, len as int);
        assert(suffix[0] == s@[i as int]);
        let c = s.get_char(i);
        if c == '\t' {
            proof {
                assert(suffix.drop_first() =~= s@.subrange(i as int + 1, len as int));
            }
            depth = depth + 1;
            i = i + 1;
        } else if len - i > 3 && c == ' ' && s.get_char(i + 1) == ' ' && s.get_char(i + 2) == ' '
            && s.get_char(i + 3) == ' ' {
            proof {
                assert(suffix.subrange(4, suffix.len() as int) =~= s@.subrange(
                    i as int + 4,
                    len as int,
                ));
            }
            depth = depth + 1;
            i = i + 4;
        } else if c == ' ' {
            proof {
                assert(len - i > 3 ==> (suffix.len() >= 4 && suffix[1] == s@[i as int + 1]
                    && suffix[2] == s@[i as int + 2] && suffix[3] == s@[i as int + 3]));
                assert(len - i <= 3 ==> suffix.len() < 4);
                assert(suffix.drop_first() =~= s@.subrange(i as int + 1, len as int));
            }
            i = i + 1;
        } else {
            break;
        }
    }
    let rest = s.substring_char(i, len);
    let name = trim_str(rest).to_owned();
    (depth, name)
}

/// Length of the leading run of branch fill characters (horizontal bars and
/// spaces) that follows a branch marker.
pub open spec fn fill_run(s: Seq<char>) -> nat
    decreases s.len(),
{
    if s.len() > 0 && (s[0] == '─' || s[0] == ' ') {
        (1 + fill_run(s.drop_first())) as nat
    } else {
        0nat
    }
}

/// The fill run never exceeds the length of `s`.
pub proof fn lemma_fill_run_le(s: Seq<char>)
    ensures
        fill_run(s) <= s.len(),
    decreases s.len(),
{
    if s.len() > 0 && (s[0] == '─' || s[0] == ' ') {
        lemma_fill_run_le(s.drop_first());
    }
}

/// The tree-dialect walk over the start of a line: each vertical bar adds
/// one depth level, spaces are skipped, and a branch tee or corner marks the
/// line as carrying its own branch marker, consumes the fill that follows
/// it, and stops the walk; any other character stops the walk as well.
/// Returns the bar count, the number of characters consumed, and whether a
/// branch marker was seen.
pub open spec fn tree_walk(s: Seq<char>) -> (nat, nat, bool)
    decreases s.len(),
{
    if s.len() == 0 {
        (0nat, 0nat, false)
    } else if s[0] == '│' {
        let r = tree_walk(s.drop_first());
        ((r.0 + 1) as nat, (r.1 + 1) as nat, r.2)
    } else if s[0] == ' ' {
        let r = tree_walk(s.drop_first());
        (r.0, (r.1 + 1) as nat, r.2)
    } else if s[0] == '├' || s[0] == '└' {
        (0nat, (1 + fill_run(s.drop_first())) as nat, true)
    } else {
        (0nat, 0nat, false)
    }
}

/// The nesting depth a line has under the tree dialect: one level per
/// vertical bar, and one more when the line carries its own branch marker.
pub open spec fn tree_depth(s: Seq<char>) -> nat {
    let r = tree_walk(s);
    (r.0 + if r.2 {
        1nat
    } else {
        0nat
    }) as nat
}

/// How much of `s` the tree walk consumes never exceeds its length.
pub proof fn lemma_tree_walk_consumed(s: Seq<char>)
    ensures
        tree_walk(s).1 <= s.len(),
    decreases s.len(),
{
    if s.len() == 0 {
    } else if s[0] == '│' || s[0] == ' ' {
        lemma_tree_walk_consumed(s.drop_first());
    } else if s[0] == '├' || s[0] == '└' {
        lemma_fill_run_le(s.drop_first());
    }
}

/// Parses a line under the tree dialect: returns the depth given by the
/// vertical bars and the branch marker, and the trimmed remainder as the
/// name.
pub fn parse_tree_based(s: &str) -> (r: (usize, String))
    ensures
        r.0 == tree_depth(s@),
        r.1@ == trimmed(s@.subrange(tree_walk(s@).1 as int, s@.len() as int)),
{
    let len = s.unicode_len();
    proof {
        assert(s@.subrange(0, len as int) =~= s@);
    }
    let mut i: usize = 0;
    let mut bars: usize = 0;
    let mut has_branch = false;
    loop
        invariant_except_break
            !has_branch,
            tree_walk(s@).0 == bars + tree_walk(s@.subrange(i as int, len as int)).0,
            tree_walk(s@).1 == i + tree_walk(s@.subrange(i as int, len as int)).1,
            tree_walk(s@).2 == tree_walk(s@.subrange(i as int, len as int)).2,
        invariant
            i <= len,
            bars <= i,
            len == s@.len(),
        ensures
            i <= len,
            len == s@.len(),
            has_branch ==> bars < i,
            tree_walk(s@).0 == bars,
            tree_walk(s@).1 == i,
            tree_walk(s@).2 == has_branch,
        decreases len - i,
    {
        if i >= len {
            assert(s@.subrange(i as int, len as int) =~= Seq::<char>::empty());
            break;
        }
        let ghost suffix = s@.subrange(i as int, len as int);
        assert(suffix[0] == s@[i as int]);
        let c = s.get_char(i);
        if c == '│' {
            proof {
                assert(suffix.drop_first() =~= s@.subrange(i as int + 1, len as int));
            }
            bars = bars + 1;
            i = i + 1;
        } else if c == ' ' {
            proof {
                assert(suffix.drop_first() =~= s@.subrange(i as int + 1, len as int));
            }
            i = i + 1;
        } else if c == '├' || c == '└' {
            proof {
                assert(suffix.drop_first() =~= s@.subrange(i as int + 1, len as int));
                lemma_fill_run_le(suffix.drop_first());
            }
            has_branch = true;
            let start = i + 1;
            let mut j: usize = start;
            loop
                invariant
                    start <= j <= len,
                    len == s@.len(),
                    fill_run(s@.subrange(start as int, len as int)) == (j - start) + fill_run(
                        s@.subrange(j as int, len as int),
                    ),
                ensures
                    start <= j <= len,
                    fill_run(s@.subrange(start as int, len as int)) == j - start,
                decreases len - j,
            {
                if j >= len {
                    assert(s@.subrange(j as int, len as int) =~= Seq::<char>::empty());
                    break;
                }
                let ghost fsuffix = s@.subrange(j as int, len as int);
                assert(fsuffix[0] == s@[j as int]);
                let d = s.get_char(j);
                if d == '─' || d == ' ' {
                    proof {
                        assert(fsuffix.drop_first() =~= s@.subrange(j as int + 1, len as int));
                    }
                    j = j + 1;
                } else {
                    break;
                }
            }
            i = j;
            break;
        } else {
            break;
        }
    }
    let depth = if has_branch {
        bars + 1
    } else {
        bars
    };
    let rest = s.substring_char(i, len);
    let name = trim_str(rest).to_owned();
    (depth, name)
}

/// What the parser found on one line: the nesting depth, the entry name
/// with the directory marker stripped, and whether that marker was present.
pub ghost struct Record {
    pub depth: nat,
    pub name: Seq<char>,
    pub is_dir: bool,
}

/// The name a line carries, before the directory marker is looked at: the
/// trimmed remainder that the line's dialect walk leaves of the text before
/// any `#` comment.
pub open spec fn raw_name(line: Seq<char>) -> Seq<char> {
    let content = before_hash(line);
    let has_conn = exists|j: int| 0 <= j < content.len() && is_connector(content[j]);
    let consumed = if has_conn {
        tree_walk(content).1
    } else {
        indent_walk(content).1
    };
    trimmed(content.subrange(consumed as int, content.len() as int))
}

/// The record a line of text yields, if any.
///
/// A line whose trimmed text is empty or a lone vertical bar yields none.
/// Otherwise the text before any `#` comment is read under the tree dialect
/// when it holds a connector, under the indent dialect when it does not; the
/// trimmed remainder after the walk is the name.  An empty name yields no
/// record; a trailing `/` marks a directory and that one separator is
/// stripped from the name.
pub open spec fn parse_line_spec(line: Seq<char>) -> Option<Record> {
    let t = trimmed(line);
    if t.len() == 0 || t == seq!['│'] {
        None
    } else {
        let content = before_hash(line);
        let has_conn = exists|j: int| 0 <= j < content.len() && is_connector(content[j]);
        let depth = if has_conn {
            tree_depth(content)
        } else {
            indent_walk(content).0
        };
        let raw = raw_name(line);
        if raw.len() == 0 {
            None
        } else {
            let is_dir = raw.last() == '/';
            let name = if is_dir {
                raw.drop_last()
            } else {
                raw
            };
            Some(Record { depth, name, is_dir })
        }
    }
}

/// One accepted line of a listing: the entry's base name with its trailing
/// path separator stripped, whether that separator marked it a directory,
/// and its nesting depth (0 for a direct child of the output root).
pub struct Entry {
    pub name: String,
    pub is_dir: bool,
    pub depth: usize,
}

impl View for Entry {
    type V = Record;

    open spec fn view(&self) -> Record {
        Record { depth: self.depth as nat, name: self.name@, is_dir: self.is_dir }
    }
}

impl DeepView for Entry {
    type V = Record;

    open spec fn deep_view(&self) -> Record {
        self@
    }
}

/// Parses one line of a listing, as [`parse_line_spec`] describes.
pub fn parse_tree_line(line: &str) -> (r: Option<Entry>)
    ensures
        match r {
            Some(e) => parse_line_spec(line@) == Some(e@),
            None => parse_line_spec(line@) is None,
        },
{
    let t = trim_str(line);
    let tlen = t.unicode_len();
    if tlen == 0 {
        return None;
    }
    if tlen == 1 && t.get_char(0) == '│' {
        proof {
            assert(t@ =~= seq!['│']);
        }
        return None;
    }
    proof {
        assert(seq!['│'].len() == 1);
        assert(t@ != seq!['│']) by {
            if t@ == seq!['│'] {
                assert(t@[0] == '│');
            }
        }
    }
    let hash = comment_start(line);
    let content = line.substring_char(0, hash);
    let has_conn = has_connector_in(content);
    let (depth, name) = if has_conn {
        parse_tree_based(content)
    } else {
        parse_tab_based(content)
    };
    let n = name.as_str();
    let nlen = n.unicode_len();
    if nlen == 0 {
        return None;
    }
    let is_dir = n.get_char(nlen - 1) == '/';
    proof {
        assert(n@.last() == n@[nlen - 1]);
        if !has_conn {
            lemma_indent_walk_consumed(content@);
        } else {
            lemma_tree_walk_consumed(content@);
        }
    }
    let base = if is_dir {
        proof {
            assert(n@.subrange(0, nlen - 1) =~= n@.drop_last());
        }
        n.substring_char(0, nlen - 1).to_owned()
    } else {
        name
    };
    Some(Entry { name: base, is_dir, depth })
}

proof fn lemma_trim_front_all_blank(s: Seq<char>)
    requires
        forall|j: int| 0 <= j < s.len() ==> is_blank(s[j]),
    ensures
        trim_front(s) == Seq::<char>::empty(),
    decreases s.len(),
{
    if s.len() > 0 {
        lemma_trim_front_all_blank(s.drop_first());
    } else {
        assert(s =~= Seq::<char>::empty());
    }
}

proof fn lemma_trim_back_keeps_first(s: Seq<char>)
    requires
        s.len() > 0,
        !is_blank(s[0]),
    ensures
        trim_back(s).len() > 0,
        trim_back(s)[0] == s[0],
    decreases s.len(),
{
    if is_blank(s.last()) {
        lemma_trim_back_keeps_first(s.drop_last());
    }
}

/// A line that is blank, whitespace-only, or whose trimmed text is a lone
/// vertical bar yields no record.
pub proof fn lemma_blank_line_yields_no_record(line: Seq<char>)
    requires
        (forall|j: int| 0 <= j < line.len() ==> is_blank(line[j])) || trimmed(line) == seq!['│'],
    ensures
        parse_line_spec(line) is None,
{
    if forall|j: int| 0 <= j < line.len() ==> is_blank(line[j]) {
        lemma_trim_front_all_blank(line);
        assert(trimmed(line).len() == 0);
    }
}

/// A line that is entirely a comment yields no record.
pub proof fn lemma_comment_line_yields_no_record(line: Seq<char>)
    requires
        line.len() > 0,
        line[0] == '#',
    ensures
        parse_line_spec(line) is None,
{
    assert(trim_front(line) == line);
    lemma_trim_back_keeps_first(line);
    let t = trimmed(line);
    assert(t != seq!['│']) by {
        if t == seq!['│'] {
            assert(t[0] == '│');
        }
    }
    let content = before_hash(line);
    assert(content =~= Seq::<char>::empty());
    assert(content.subrange(0, 0) =~= Seq::<char>::empty());
    assert(trimmed(Seq::<char>::empty()).len() == 0);
}

/// Indent dialect: a name preceded by exactly one tab and then exactly four
/// spaces sits at depth 2, one level for the tab and one for the space run.
pub proof fn lemma_tab_four_spaces_depth(rest: Seq<char>)
    requires
        rest.len() > 0,
        rest[0] != ' ',
        rest[0] != '\t',
    ensures
        indent_walk(seq!['\t', ' ', ' ', ' ', ' '] + rest).0 == 2,
        indent_walk(seq!['\t', ' ', ' ', ' ', ' '] + rest).1 == 5,
{
    let s = seq!['\t', ' ', ' ', ' ', ' '] + rest;
    let s1 = seq![' ', ' ', ' ', ' '] + rest;
    assert(s.drop_first() =~= s1);
    assert(s1.subrange(4, s1.len() as int) =~= rest);
    assert(indent_walk(rest) == (0nat, 0nat));
    assert(s1[0] == ' ' && s1[1] == ' ' && s1[2] == ' ' && s1[3] == ' ');
    assert(indent_walk(s1) == (1nat, 4nat));
    assert(s[0] == '\t');
    assert(indent_walk(s) == (2nat, 5nat));
}

/// Tree dialect: a name preceded by one vertical bar and then a branch
/// corner sits at depth 2, one level for the bar and one for carrying its
/// own branch marker.
pub proof fn lemma_bar_corner_depth(rest: Seq<char>)
    ensures
        tree_depth(seq!['│', '└'] + rest) == 2,
{
    let s = seq!['│', '└'] + rest;
    let s1 = seq!['└'] + rest;
    assert(s.drop_first() =~= s1);
    assert(tree_walk(s1) == (0nat, (1 + fill_run(rest)) as nat, true)) by {
        assert(s1.drop_first() =~= rest);
    }
}

/// Round trip of the directory marker: stripping the trailing separator and
/// re-appending it reproduces the name the line carried, so the name used
/// for path construction determines that original name together with the
/// record's kind.
pub proof fn lemma_dir_marker_round_trip(line: Seq<char>)
    requires
        parse_line_spec(line) is Some,
    ensures
        ({
            let r = parse_line_spec(line).unwrap();
            &&& (r.is_dir ==> r.name.push('/') == raw_name(line))
            &&& (!r.is_dir ==> r.name == raw_name(line))
        }),
{
    let r = parse_line_spec(line).unwrap();
    let raw = raw_name(line);
    if r.is_dir {
        assert(r.name == raw.drop_last());
        assert(raw.last() == '/');
        assert(raw.drop_last().push(raw.last()) =~= raw);
    }
}

} // verus!
