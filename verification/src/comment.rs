//! KerML comment bodies: delimiters removed and line decoration normalized
//! (KerML 1.0, 8.2.3.3.2), all other text kept exactly.
use vstd::prelude::*;
use vstd::string::*;

verus! {

/// First position at or after `i` (before `end`) that is not blank; blank is
/// space or tab, and also carriage return when `cr` holds.
pub open spec fn skip_blank(t: Seq<char>, i: int, end: int, cr: bool) -> int
    decreases end - i,
{
    if i < end && (t[i] == ' ' || t[i] == '\t' || (cr && t[i] == '\r')) {
        skip_blank(t, i + 1, end, cr)
    } else {
        i
    }
}

/// End of the line starting at `i`: just past its newline, or `end`.
pub open spec fn line_end(t: Seq<char>, i: int, end: int) -> int
    decreases end - i,
{
    if i >= end {
        end
    } else if t[i] == '\n' {
        i + 1
    } else {
        line_end(t, i + 1, end)
    }
}

/// Start of a continuation line's text: after leading blanks, an optional
/// `*` decoration and one following space.
pub open spec fn decoration_end(t: Seq<char>, i: int, end: int) -> int {
    let q = skip_blank(t, i, end, false);
    if q < end && t[q] == '*' {
        if q + 1 < end && t[q + 1] == ' ' {
            q + 2
        } else {
            q + 1
        }
    } else {
        q
    }
}

/// The text of the lines from `pos` to `end`, each kept through its newline;
/// the first is kept raw when `first_raw`, every other loses its decoration.
pub open spec fn comment_lines(t: Seq<char>, pos: int, end: int, first_raw: bool) -> Seq<char>
    decreases end - pos,
{
    let e = line_end(t, pos, end);
    if pos >= end || e <= pos || e > end {
        Seq::empty()
    } else {
        let from = if first_raw {
            pos
        } else {
            decoration_end(t, pos, e)
        };
        t.subrange(from, e) + comment_lines(t, e, end, false)
    }
}

/// The body of a comment token `/* ... */`. When only blanks precede the
/// first newline, that prefix and newline are dropped and every line is
/// undecorated; otherwise the first line is kept exactly.
pub open spec fn comment_body_spec(t: Seq<char>) -> Seq<char> {
    let end = t.len() - 2;
    let p = skip_blank(t, 2, end, true);
    if p < end && t[p] == '\n' {
        comment_lines(t, p + 1, end, false)
    } else {
        comment_lines(t, 2, end, true)
    }
}

proof fn lemma_skip_blank_bounds(t: Seq<char>, i: int, end: int, cr: bool)
    requires
        i <= end,
    ensures
        i <= skip_blank(t, i, end, cr) <= end,
    decreases end - i,
{
    if i < end && (t[i] == ' ' || t[i] == '\t' || (cr && t[i] == '\r')) {
        lemma_skip_blank_bounds(t, i + 1, end, cr);
    }
}

proof fn lemma_line_end_bounds(t: Seq<char>, i: int, end: int)
    requires
        i < end,
    ensures
        i < line_end(t, i, end) <= end,
    decreases end - i,
{
    if t[i] != '\n' {
        if i + 1 < end {
            lemma_line_end_bounds(t, i + 1, end);
        } else {
            assert(line_end(t, i + 1, end) == end);
        }
    }
}

fn skip_blank_exec(t: &str, i: usize, end: usize, cr: bool) -> (q: usize)
    requires
        i <= end <= t@.len(),
    ensures
        q == skip_blank(t@, i as int, end as int, cr),
        i <= q <= end,
{
    let mut q = i;
    while q < end
        invariant
            i <= q <= end <= t@.len(),
            skip_blank(t@, q as int, end as int, cr) == skip_blank(t@, i as int, end as int, cr),
        decreases end - q,
    {
        let c = t.get_char(q);
        if c == ' ' || c == '\t' || (cr && c == '\r') {
            q = q + 1;
        } else {
            assert(skip_blank(t@, q as int, end as int, cr) == q as int);
            return q;
        }
    }
    assert(skip_blank(t@, q as int, end as int, cr) == q as int);
    q
}

fn line_end_exec(t: &str, i: usize, end: usize) -> (e: usize)
    requires
        i < end <= t@.len(),
    ensures
        e == line_end(t@, i as int, end as int),
        i < e <= end,
{
    proof {
        lemma_line_end_bounds(t@, i as int, end as int);
    }
    let mut q = i;
    while q < end
        invariant
            i <= q <= end <= t@.len(),
            line_end(t@, q as int, end as int) == line_end(t@, i as int, end as int),
        decreases end - q,
    {
        if t.get_char(q) == '\n' {
            return q + 1;
        }
        q = q + 1;
    }
    end
}

fn decoration_end_exec(t: &str, i: usize, end: usize) -> (d: usize)
    requires
        i <= end <= t@.len(),
    ensures
        d == decoration_end(t@, i as int, end as int),
        i <= d <= end,
{
    let q = skip_blank_exec(t, i, end, false);
    if q < end && t.get_char(q) == '*' {
        if q + 1 < end && t.get_char(q + 1) == ' ' {
            q + 2
        } else {
            q + 1
        }
    } else {
        q
    }
}

/// Whether a text is a complete comment token: `/*`, content, `*/`.
pub open spec fn is_comment_token(t: Seq<char>) -> bool {
    &&& t.len() >= 4
    &&& t[0] == '/'
    &&& t[1] == '*'
    &&& t[t.len() - 2] == '*'
    &&& t[t.len() - 1] == '/'
}

/// Remove the comment delimiters and normalize line decoration only.
pub fn comment_body(text: &str) -> (body: String)
    requires
        is_comment_token(text@),
    ensures
        body@ == comment_body_spec(text@),
{
    let n = text.unicode_len();
    let end = n - 2;
    let p = skip_blank_exec(text, 2, end, true);
    let starts_newline = p < end && text.get_char(p) == '\n';
    let mut pos: usize = if starts_newline { p + 1 } else { 2 };
    let mut first_raw = !starts_newline;
    let mut out = String::new();
    let ghost start = pos;
    let ghost start_raw = first_raw;
    proof {
        assert(comment_body_spec(text@) == comment_lines(text@, start as int, end as int, start_raw));
    }
    while pos < end
        invariant
            n == text@.len(),
            end == n - 2,
            start <= pos <= end,
            out@ + comment_lines(text@, pos as int, end as int, first_raw) == comment_lines(text@, start as int, end as int, start_raw),
        decreases end - pos,
    {
        let e = line_end_exec(text, pos, end);
        proof {
            lemma_line_end_bounds(text@, pos as int, end as int);
        }
        let from = if first_raw { pos } else { decoration_end_exec(text, pos, e) };
        let piece = text.substring_char(from, e);
        let ghost before = out@;
        out.append(piece);
        proof {
            assert(comment_lines(text@, pos as int, end as int, first_raw) == text@.subrange(from as int, e as int) + comment_lines(text@, e as int, end as int, false));
            assert(out@ + comment_lines(text@, e as int, end as int, false) =~= before + comment_lines(text@, pos as int, end as int, first_raw));
        }
        pos = e;
        first_raw = false;
    }
    proof {
        assert(comment_lines(text@, pos as int, end as int, first_raw) =~= Seq::<char>::empty());
        assert(out@ =~= out@ + Seq::<char>::empty());
    }
    out
}

} // verus!
