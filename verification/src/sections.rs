use vstd::prelude::*;
use crate::text::{views_of, eq_chars, clone_key};

verus! {

// The top-level section orderer works on the serialized manifest text, not on
// the document tree: splitting at bracketed headers is the only way to keep
// each section's comments and formatting byte-for-byte. The text is modelled
// as a sequence of characters; lines are split at '\n' and rejoined with
// '\n', so a file using "\r\n" keeps its carriage returns inside the lines.

/// Index of the first '\n' at or after `i`, or the length when there is none.
pub open spec fn first_nl(t: Seq<char>, i: int) -> int
    decreases t.len() - i,
{
    if i < 0 || i >= t.len() {
        t.len() as int
    } else if t[i] == '\n' {
        i
    } else {
        first_nl(t, i + 1)
    }
}

/// The lines of `t`: maximal '\n'-free stretches, the terminators dropped,
/// a trailing empty line not counted.
pub open spec fn lines_of(t: Seq<char>) -> Seq<Seq<char>>
    decreases t.len(),
{
    if t.len() == 0 {
        Seq::empty()
    } else {
        let e = first_nl(t, 0);
        if 0 <= e && e < t.len() {
            seq![t.subrange(0, e)] + lines_of(t.subrange(e + 1, t.len() as int))
        } else {
            seq![t]
        }
    }
}

/// Drops leading spaces and tabs.
pub open spec fn ltrim(s: Seq<char>) -> Seq<char>
    decreases s.len(),
{
    if s.len() > 0 && (s[0] == ' ' || s[0] == '\t') {
        ltrim(s.subrange(1, s.len() as int))
    } else {
        s
    }
}

/// Index of the first occurrence of `c` at or after `i`, or -1.
pub open spec fn find_char(s: Seq<char>, c: char, i: int) -> int
    decreases s.len() - i,
{
    if i < 0 || i >= s.len() {
        -1
    } else if s[i] == c {
        i
    } else {
        find_char(s, c, i + 1)
    }
}

/// Index of the first occurrence of "]]" at or after `i`, or -1.
pub open spec fn find_close2(s: Seq<char>, i: int) -> int
    decreases s.len() - i,
{
    if i < 0 || i + 1 >= s.len() {
        -1
    } else if s[i] == ']' && s[i + 1] == ']' {
        i
    } else {
        find_close2(s, i + 1)
    }
}

/// Index of the first character at or after `i` that is not a space or tab.
pub open spec fn skip_blank(s: Seq<char>, i: int) -> int
    decreases s.len() - i,
{
    if i < 0 || i >= s.len() {
        s.len() as int
    } else if s[i] == ' ' || s[i] == '\t' {
        skip_blank(s, i + 1)
    } else {
        i
    }
}

/// Index of the first character at or after `i` that ends a bare key
/// segment: a dot, a closing bracket, a space or a tab.
pub open spec fn seg_end(s: Seq<char>, i: int) -> int
    decreases s.len() - i,
{
    if i < 0 || i >= s.len() {
        s.len() as int
    } else if s[i] == '.' || s[i] == ']' || s[i] == ' ' || s[i] == '\t' {
        i
    } else {
        seg_end(s, i + 1)
    }
}

/// The first segment of the dotted name that starts at `i`: blanks skipped,
/// a quoted segment taken between its quotes (escapes are not interpreted),
/// a bare segment taken up to the first dot, bracket or blank. A dotted
/// header such as one for a platform-scoped table is thus filed under its
/// root key, the one the document tree shows.
pub open spec fn first_segment(s: Seq<char>, i: int) -> Seq<char> {
    let b = skip_blank(s, i);
    if 0 <= b && b < s.len() && (s[b] == '"' || s[b] == '\'') {
        let q = find_char(s, s[b], b + 1);
        if q >= 0 {
            s.subrange(b + 1, q)
        } else {
            s.subrange(b + 1, s.len() as int)
        }
    } else if 0 <= b && b <= seg_end(s, b) && seg_end(s, b) <= s.len() {
        s.subrange(b, seg_end(s, b))
    } else {
        Seq::empty()
    }
}

/// What a line of serialized manifest text is for the section splitter: a
/// standard `[name]` header, an array-of-tables `[[name]]` header, or plain
/// content. A bracket line that never closes is treated as plain content.
pub enum LineKind {
    Std { name: Seq<char> },
    Aot { name: Seq<char> },
    Plain,
}

/// Classifies one line after trimming leading blanks.
pub open spec fn line_kind(s: Seq<char>) -> LineKind {
    let t = ltrim(s);
    if t.len() >= 2 && t[0] == '[' && t[1] == '[' {
        let e = find_close2(t, 0);
        if e >= 2 {
            LineKind::Aot { name: first_segment(t, 2) }
        } else {
            LineKind::Plain
        }
    } else if t.len() >= 1 && t[0] == '[' {
        let e = find_char(t, ']', 0);
        if e >= 1 {
            LineKind::Std { name: first_segment(t, 1) }
        } else {
            LineKind::Plain
        }
    } else {
        LineKind::Plain
    }
}

/// Executable counterpart of [`LineKind`], carrying the extracted name.
pub enum LineClass {
    Std { name: Vec<char> },
    Aot { name: Vec<char> },
    Plain,
}

/// Copies `s@.subrange(from, to)` into a fresh vector.
pub fn copy_range(s: &Vec<char>, from: usize, to: usize) -> (r: Vec<char>)
    requires
        from <= to <= s@.len(),
    ensures
        r@ == s@.subrange(from as int, to as int),
{
    let mut r: Vec<char> = Vec::new();
    let mut i: usize = from;
    while i < to
        invariant
            from <= i <= to <= s@.len(),
            r@ == s@.subrange(from as int, i as int),
        decreases to - i,
    {
        let ghost pre = r@;
        r.push(s[i]);
        proof {
            assert(r@ =~= s@.subrange(from as int, i + 1));
        }
        i += 1;
    }
    r
}

/// Extracts the first segment of the dotted name starting at `from`.
pub fn extract_segment(t: &Vec<char>, from: usize) -> (r: Vec<char>)
    requires
        from <= t@.len(),
    ensures
        r@ == first_segment(t@, from as int),
{
    let mut b: usize = from;
    while b < t.len() && (t[b] == ' ' || t[b] == '\t')
        invariant
            from <= b <= t@.len(),
            skip_blank(t@, from as int) == skip_blank(t@, b as int),
        decreases t.len() - b,
    {
        b += 1;
    }
    proof {
        assert(skip_blank(t@, b as int) == b);
    }
    if b < t.len() && (t[b] == '"' || t[b] == '\'') {
        let qc = t[b];
        let mut i: usize = b + 1;
        loop
            invariant
                b + 1 <= i <= t@.len(),
                b < t@.len(),
                qc == t@[b as int],
                qc == '"' || qc == '\'',
                skip_blank(t@, from as int) == b,
                find_char(t@, qc, b + 1) == find_char(t@, qc, i as int),
            decreases t@.len() - i,
        {
            if i >= t.len() {
                proof {
                    assert(find_char(t@, qc, i as int) == -1);
                    assert(t@[skip_blank(t@, from as int)] == qc);
                    assert(first_segment(t@, from as int) == t@.subrange(
                        b + 1,
                        t@.len() as int,
                    ));
                }
                return copy_range(t, b + 1, t.len());
            }
            if t[i] == qc {
                proof {
                    assert(find_char(t@, qc, i as int) == i);
                    assert(t@[skip_blank(t@, from as int)] == qc);
                    assert(first_segment(t@, from as int) == t@.subrange(b + 1, i as int));
                }
                return copy_range(t, b + 1, i);
            }
            i += 1;
        }
    } else {
        let mut i: usize = b;
        loop
            invariant
                b <= i <= t@.len(),
                skip_blank(t@, from as int) == b,
                b == skip_blank(t@, b as int),
                !(b < t@.len() && (t@[b as int] == '"' || t@[b as int] == '\'')),
                seg_end(t@, b as int) == seg_end(t@, i as int),
            decreases t@.len() - i,
        {
            if i >= t.len() {
                proof {
                    assert(seg_end(t@, i as int) == t@.len());
                }
                return copy_range(t, b, t.len());
            }
            if t[i] == '.' || t[i] == ']' || t[i] == ' ' || t[i] == '\t' {
                proof {
                    assert(seg_end(t@, i as int) == i);
                }
                return copy_range(t, b, i);
            }
            i += 1;
        }
    }
}

/// Classifies a line the way the section splitter reads it.
pub fn classify_line(line: &Vec<char>) -> (r: LineClass)
    ensures
        (match r {
            LineClass::Std { name } => line_kind(line@) == (LineKind::Std { name: name@ }),
            LineClass::Aot { name } => line_kind(line@) == (LineKind::Aot { name: name@ }),
            LineClass::Plain => line_kind(line@) == LineKind::Plain,
        }),
{
    // Find where the leading blanks end.
    let mut st: usize = 0;
    proof {
        assert(line@.subrange(0, line@.len() as int) =~= line@);
    }
    while st < line.len() && (line[st] == ' ' || line[st] == '\t')
        invariant
            0 <= st <= line@.len(),
            ltrim(line@) == ltrim(line@.subrange(st as int, line@.len() as int)),
        decreases line.len() - st,
    {
        proof {
            let cur = line@.subrange(st as int, line@.len() as int);
            assert(cur[0] == line@[st as int]);
            assert(cur.subrange(1, cur.len() as int) =~= line@.subrange(
                st + 1,
                line@.len() as int,
            ));
        }
        st += 1;
    }
    let t = copy_range(line, st, line.len());
    proof {
        if t@.len() > 0 {
            assert(t@[0] == line@[st as int]);
        }
        assert(ltrim(t@) == t@);
        assert(ltrim(line@) == t@);
    }
    if t.len() >= 2 && t[0] == '[' && t[1] == '[' {
        // Look for the closing "]]".
        let mut i: usize = 0;
        loop
            invariant
                0 <= i <= t@.len(),
                t@ == ltrim(line@),
                t@.len() >= 2,
                t@[0] == '[',
                t@[1] == '[',
                find_close2(t@, 0) == find_close2(t@, i as int),
            decreases t@.len() - i,
        {
            if i >= t.len() - 1 {
                proof {
                    assert(find_close2(t@, i as int) == -1);
                }
                return LineClass::Plain;
            }
            if t[i] == ']' && t[i + 1] == ']' {
                proof {
                    assert(find_close2(t@, i as int) == i);
                    assert(i >= 2);
                }
                let name = extract_segment(&t, 2);
                return LineClass::Aot { name };
            }
            i += 1;
        }
    } else if t.len() >= 1 && t[0] == '[' {
        // Look for the closing ']'.
        let mut i: usize = 0;
        loop
            invariant
                0 <= i <= t@.len(),
                t@ == ltrim(line@),
                t@.len() >= 1,
                t@[0] == '[',
                !(t@.len() >= 2 && t@[1] == '['),
                find_char(t@, ']', 0) == find_char(t@, ']', i as int),
            decreases t@.len() - i,
        {
            if i >= t.len() {
                proof {
                    assert(find_char(t@, ']', i as int) == -1);
                }
                return LineClass::Plain;
            }
            if t[i] == ']' {
                proof {
                    assert(find_char(t@, ']', i as int) == i);
                    assert(i >= 1);
                }
                let name = extract_segment(&t, 1);
                return LineClass::Std { name };
            }
            i += 1;
        }
    } else {
        LineClass::Plain
    }
}

/// Splits text into its lines.
pub fn split_lines(text: &Vec<char>) -> (r: Vec<Vec<char>>)
    ensures
        views_of(r@) == lines_of(text@),
{
    let mut out: Vec<Vec<char>> = Vec::new();
    let mut s: usize = 0;
    let mut i: usize = 0;
    proof {
        assert(text@.subrange(0, text@.len() as int) =~= text@);
    }
    while i < text.len()
        invariant
            0 <= s <= i <= text@.len(),
            forall|j: int| s <= j < i ==> text@[j] != '\n',
            lines_of(text@) == views_of(out@) + lines_of(
                text@.subrange(s as int, text@.len() as int),
            ),
        decreases text.len() - i,
    {
        if text[i] == '\n' {
            let line = copy_range(text, s, i);
            let ghost pre = views_of(out@);
            out.push(line);
            proof {
                let rest = text@.subrange(s as int, text@.len() as int);
                assert(views_of(out@) =~= pre.push(line@));
                lemma_first_nl_found(rest, (i - s) as int);
                assert(first_nl(rest, 0) == i - s);
                assert(rest.subrange(0, i - s) =~= text@.subrange(s as int, i as int));
                assert(rest.subrange(i - s + 1, rest.len() as int) =~= text@.subrange(
                    i + 1,
                    text@.len() as int,
                ));
                assert(views_of(out@) + lines_of(text@.subrange(i + 1, text@.len() as int)) =~= pre
                    + lines_of(rest));
            }
            s = i + 1;
        }
        i += 1;
    }
    proof {
        let rest = text@.subrange(s as int, text@.len() as int);
        if rest.len() > 0 {
            lemma_first_nl_none(rest);
            assert(lines_of(rest) =~= seq![rest]);
        }
    }
    if s < text.len() {
        let line = copy_range(text, s, text.len());
        let ghost pre = views_of(out@);
        out.push(line);
        proof {
            assert(views_of(out@) =~= pre.push(line@));
            assert(views_of(out@) =~= lines_of(text@));
        }
    } else {
        proof {
            assert(text@.subrange(s as int, text@.len() as int).len() == 0);
            assert(views_of(out@) =~= lines_of(text@));
        }
    }
    out
}

/// When position `k` holds the first '\n' of `t`, `first_nl` finds it.
proof fn lemma_first_nl_found(t: Seq<char>, k: int)
    requires
        0 <= k < t.len(),
        t[k] == '\n',
        forall|j: int| 0 <= j < k ==> t[j] != '\n',
    ensures
        first_nl(t, 0) == k,
    decreases k,
{
    lemma_first_nl_step(t, 0, k);
}

/// `first_nl` walks from `i` to the known first position `k`.
proof fn lemma_first_nl_step(t: Seq<char>, i: int, k: int)
    requires
        0 <= i <= k < t.len(),
        t[k] == '\n',
        forall|j: int| i <= j < k ==> t[j] != '\n',
    ensures
        first_nl(t, i) == k,
    decreases k - i,
{
    if i < k {
        lemma_first_nl_step(t, i + 1, k);
    }
}

/// When `t` has no '\n' at all, `first_nl` reports the length.
proof fn lemma_first_nl_none(t: Seq<char>)
    requires
        forall|j: int| 0 <= j < t.len() ==> t[j] != '\n',
    ensures
        first_nl(t, 0) == t.len(),
{
    lemma_first_nl_none_from(t, 0);
}

proof fn lemma_first_nl_none_from(t: Seq<char>, i: int)
    requires
        0 <= i <= t.len(),
        forall|j: int| i <= j < t.len() ==> t[j] != '\n',
    ensures
        first_nl(t, i) == t.len(),
    decreases t.len() - i,
{
    if i < t.len() {
        lemma_first_nl_none_from(t, i + 1);
    }
}

} // verus!

verus! {

/// The (name, block) pairs of captured sections, as mathematical values.
pub open spec fn pair_views(s: Seq<(Vec<char>, Vec<char>)>) -> Seq<(Seq<char>, Seq<char>)> {
    s.map_values(|p: (Vec<char>, Vec<char>)| (p.0@, p.1@))
}

/// Index of the first captured block named `k` at or after `i`, or -1.
pub open spec fn find_key(acc: Seq<(Seq<char>, Seq<char>)>, k: Seq<char>, i: int) -> int
    decreases acc.len() - i,
{
    if i < 0 || i >= acc.len() {
        -1
    } else if acc[i].0 == k {
        i
    } else {
        find_key(acc, k, i + 1)
    }
}

/// Stores block `v` under name `k`: appends the text to the block of an
/// existing name, so no captured text is ever lost, else appends a new
/// (name, block) pair.
pub open spec fn acc_set(acc: Seq<(Seq<char>, Seq<char>)>, k: Seq<char>, v: Seq<char>) -> Seq<
    (Seq<char>, Seq<char>),
> {
    let f = find_key(acc, k, 0);
    if f < 0 {
        acc.push((k, v))
    } else {
        acc.update(f, (k, acc[f].1 + v))
    }
}

/// The splitter's state: the section being accumulated, if any, and the
/// sections already captured.
pub struct ScanState {
    pub cur: Option<(Seq<char>, Seq<char>)>,
    pub acc: Seq<(Seq<char>, Seq<char>)>,
}

/// Closes the open section, if any.
pub open spec fn flush(st: ScanState) -> Seq<(Seq<char>, Seq<char>)> {
    match st.cur {
        Some(p) => acc_set(st.acc, p.0, p.1),
        None => st.acc,
    }
}

/// One line of the scan. A header whose root key matches the open section
/// continues it, so the dotted sub-table headers of one root key, and
/// contiguous repeated array-of-tables entries, stay one block; any other
/// header closes the open section and opens a new one. Content before the
/// first header has no section and is dropped by the reordering pass (a
/// documented limitation of this pass).
pub open spec fn scan_step(st: ScanState, line: Seq<char>) -> ScanState {
    let ln = line.push('\n');
    match line_kind(line) {
        LineKind::Std { name } => (match st.cur {
            Some(p) => if p.0 == name {
                ScanState { cur: Some((name, p.1 + ln)), acc: st.acc }
            } else {
                ScanState { cur: Some((name, ln)), acc: flush(st) }
            },
            None => ScanState { cur: Some((name, ln)), acc: flush(st) },
        }),
        LineKind::Aot { name } => (match st.cur {
            Some(p) => if p.0 == name {
                ScanState { cur: Some((name, p.1 + ln)), acc: st.acc }
            } else {
                ScanState { cur: Some((name, ln)), acc: flush(st) }
            },
            None => ScanState { cur: Some((name, ln)), acc: flush(st) },
        }),
        LineKind::Plain => (match st.cur {
            Some(p) => ScanState { cur: Some((p.0, p.1 + ln)), acc: st.acc },
            None => st,
        }),
    }
}

/// Scans the lines from `i` on and returns every captured section.
pub open spec fn scan_from(lines: Seq<Seq<char>>, i: int, st: ScanState) -> Seq<
    (Seq<char>, Seq<char>),
>
    decreases lines.len() - i,
{
    if i < 0 || i >= lines.len() {
        flush(st)
    } else {
        scan_from(lines, i + 1, scan_step(st, lines[i]))
    }
}

/// The sections of a serialized manifest, split at bracketed headers.
pub open spec fn scan_sections(lines: Seq<Seq<char>>) -> Seq<(Seq<char>, Seq<char>)> {
    scan_from(lines, 0, ScanState { cur: None, acc: Seq::empty() })
}

/// Stores a captured section, replacing an earlier block of the same name.
fn flush_into(acc: &mut Vec<(Vec<char>, Vec<char>)>, name: Vec<char>, block: Vec<char>)
    ensures
        pair_views(final(acc)@) == acc_set(pair_views(old(acc)@), name@, block@),
{
    let ghost pre = pair_views(acc@);
    let mut i: usize = 0;
    loop
        invariant
            0 <= i <= acc@.len(),
            pre == pair_views(acc@),
            pre == pair_views(old(acc)@),
            find_key(pre, name@, 0) == find_key(pre, name@, i as int),
        decreases acc@.len() - i,
    {
        if i >= acc.len() {
            proof {
                assert(find_key(pre, name@, i as int) == -1);
            }
            acc.push((name, block));
            proof {
                assert(pair_views(acc@) =~= pre.push((name@, block@)));
            }
            return;
        }
        if eq_chars(&acc[i].0, &name) {
            proof {
                assert(pre[i as int].0 == name@);
                assert(find_key(pre, name@, i as int) == i);
            }
            let ghost blockv = block@;
            let mut block = block;
            let entry = acc.remove(i);
            let mut merged = entry.1;
            merged.append(&mut block);
            acc.insert(i, (name, merged));
            proof {
                assert(pair_views(acc@) =~= pre.update(i as int, (name@, pre[i as int].1 + blockv)));
            }
            return;
        }
        proof {
            assert(pre[i as int].0 != name@);
        }
        i += 1;
    }
}

/// Splits the lines of a serialized manifest into its named sections.
pub fn scan_text_sections(lines: &Vec<Vec<char>>) -> (r: Vec<(Vec<char>, Vec<char>)>)
    ensures
        pair_views(r@) == scan_sections(views_of(lines@)),
{
    let ghost lv = views_of(lines@);
    let mut acc: Vec<(Vec<char>, Vec<char>)> = Vec::new();
    let mut cur_name: Vec<char> = Vec::new();
    let mut cur_block: Vec<char> = Vec::new();
    let mut has_cur: bool = false;
    let mut i: usize = 0;
    proof {
        assert(pair_views(acc@) =~= Seq::<(Seq<char>, Seq<char>)>::empty());
    }
    while i < lines.len()
        invariant
            0 <= i <= lines@.len(),
            lv == views_of(lines@),
            scan_from(
                lv,
                i as int,
                ScanState {
                    cur: if has_cur {
                        Some((cur_name@, cur_block@))
                    } else {
                        None
                    },
                    acc: pair_views(acc@),
                },
            ) == scan_sections(lv),
        decreases lines.len() - i,
    {
        let ghost pre_st = ScanState {
            cur: if has_cur {
                Some((cur_name@, cur_block@))
            } else {
                None
            },
            acc: pair_views(acc@),
        };
        let cls = classify_line(&lines[i]);
        let mut ln = clone_key(&lines[i]);
        ln.push('\n');
        proof {
            assert(ln@ =~= lv[i as int].push('\n'));
        }
        let ghost lnv = ln@;
        match cls {
            LineClass::Std { name } => {
                let same = has_cur && eq_chars(&cur_name, &name);
                if same {
                    cur_block.append(&mut ln);
                } else {
                    if has_cur {
                        flush_into(&mut acc, cur_name, cur_block);
                    } else {
                        has_cur = true;
                    }
                    cur_name = name;
                    cur_block = ln;
                }
            },
            LineClass::Aot { name } => {
                let same = has_cur && eq_chars(&cur_name, &name);
                if same {
                    cur_block.append(&mut ln);
                } else {
                    if has_cur {
                        flush_into(&mut acc, cur_name, cur_block);
                    } else {
                        has_cur = true;
                    }
                    cur_name = name;
                    cur_block = ln;
                }
            },
            LineClass::Plain => {
                if has_cur {
                    cur_block.append(&mut ln);
                }
            },
        }
        proof {
            let new_st = ScanState {
                cur: if has_cur {
                    Some((cur_name@, cur_block@))
                } else {
                    None
                },
                acc: pair_views(acc@),
            };
            assert(new_st == scan_step(pre_st, lv[i as int]));
            assert(scan_from(lv, i as int, pre_st) == scan_from(lv, i + 1, new_st));
        }
        i += 1;
    }
    if has_cur {
        flush_into(&mut acc, cur_name, cur_block);
    }
    acc
}

/// The separator placed before a block: one blank line, unless the text so
/// far already ends in one (or is still empty).
pub open spec fn sep_for(acc: Seq<char>) -> Seq<char> {
    if acc.len() == 0 {
        Seq::empty()
    } else if acc.len() >= 2 && acc[acc.len() - 1] == '\n' && acc[acc.len() - 2] == '\n' {
        Seq::empty()
    } else {
        seq!['\n']
    }
}

/// The blocks that reassembly emits: each expected name that has a captured
/// block, paired with that block, in expected order.
pub open spec fn chosen_blocks(
    blocks: Seq<(Seq<char>, Seq<char>)>,
    expected: Seq<Seq<char>>,
) -> Seq<(Seq<char>, Seq<char>)>
    decreases expected.len(),
{
    if expected.len() == 0 {
        Seq::empty()
    } else {
        let pre = chosen_blocks(blocks, expected.drop_last());
        let f = find_key(blocks, expected.last(), 0);
        if f >= 0 {
            pre + seq![(expected.last(), blocks[f].1)]
        } else {
            pre
        }
    }
}

/// Concatenates text blocks, a blank line between adjacent ones.
pub open spec fn glue(pieces: Seq<Seq<char>>) -> Seq<char>
    decreases pieces.len(),
{
    if pieces.len() == 0 {
        Seq::empty()
    } else {
        let acc = glue(pieces.drop_last());
        acc + sep_for(acc) + pieces.last()
    }
}

/// The reassembled manifest text.
pub open spec fn reassemble(
    blocks: Seq<(Seq<char>, Seq<char>)>,
    expected: Seq<Seq<char>>,
) -> Seq<char> {
    glue(chosen_blocks(blocks, expected).map_values(|p: (Seq<char>, Seq<char>)| p.1))
}

/// Emits the captured blocks in expected order.
pub fn reassemble_text(blocks: &Vec<(Vec<char>, Vec<char>)>, expected: &Vec<Vec<char>>) -> (r: Vec<
    char,
>)
    ensures
        r@ == reassemble(pair_views(blocks@), views_of(expected@)),
{
    let ghost bv = pair_views(blocks@);
    let ghost ev = views_of(expected@);
    let mut out: Vec<char> = Vec::new();
    let mut i: usize = 0;
    proof {
        assert(ev.take(0) =~= Seq::<Seq<char>>::empty());
        assert(out@ =~= glue(
            chosen_blocks(bv, ev.take(0)).map_values(|p: (Seq<char>, Seq<char>)| p.1),
        ));
    }
    while i < expected.len()
        invariant
            0 <= i <= expected@.len(),
            bv == pair_views(blocks@),
            ev == views_of(expected@),
            out@ == glue(chosen_blocks(bv, ev.take(i as int)).map_values(
                |p: (Seq<char>, Seq<char>)| p.1,
            )),
        decreases expected.len() - i,
    {
        let ghost pre_out = out@;
        let ghost pieces = chosen_blocks(bv, ev.take(i as int)).map_values(
            |p: (Seq<char>, Seq<char>)| p.1,
        );
        let key = &expected[i];
        let mut j: usize = 0;
        let mut found: bool = false;
        while j < blocks.len() && !found
            invariant
                0 <= j <= blocks@.len(),
                bv == pair_views(blocks@),
                !found ==> find_key(bv, ev[i as int], 0) == find_key(bv, ev[i as int], j as int),
                found ==> 0 <= find_key(bv, ev[i as int], 0) < blocks@.len() && find_key(
                    bv,
                    ev[i as int],
                    0,
                ) == j - 1,
                key@ == ev[i as int],
            decreases blocks.len() - j + (if found { 0int } else { 1int }),
        {
            if eq_chars(&blocks[j].0, key) {
                proof {
                    assert(bv[j as int].0 == ev[i as int]);
                    assert(find_key(bv, ev[i as int], j as int) == j);
                }
                found = true;
            } else {
                proof {
                    assert(bv[j as int].0 != ev[i as int]);
                }
            }
            j += 1;
        }
        if found {
            let bidx = j - 1;
            let ghost f = find_key(bv, ev[i as int], 0);
            proof {
                assert(f == bidx);
            }
            if out.len() > 0 {
                let l = out.len();
                if !(l >= 2 && out[l - 1] == '\n' && out[l - 2] == '\n') {
                    out.push('\n');
                }
            }
            proof {
                assert(out@ =~= pre_out + sep_for(pre_out));
            }
            let mut b = clone_key(&blocks[bidx].1);
            out.append(&mut b);
            proof {
                assert(out@ =~= pre_out + sep_for(pre_out) + bv[f].1);
            }
        } else {
            proof {
                assert(find_key(bv, ev[i as int], 0) == -1);
            }
        }
        proof {
            assert(ev.take(i + 1).drop_last() =~= ev.take(i as int));
            assert(ev.take(i + 1).last() == ev[i as int]);
            let ch = chosen_blocks(bv, ev.take(i + 1));
            let f = find_key(bv, ev[i as int], 0);
            if f >= 0 {
                assert(ch =~= chosen_blocks(bv, ev.take(i as int)) + seq![(ev[i as int], bv[f].1)]);
                let np = ch.map_values(|p: (Seq<char>, Seq<char>)| p.1);
                assert(np =~= pieces.push(bv[f].1));
                assert(np.drop_last() =~= pieces);
                assert(out@ =~= glue(np));
            } else {
                assert(ch =~= chosen_blocks(bv, ev.take(i as int)));
                assert(out@ =~= glue(ch.map_values(|p: (Seq<char>, Seq<char>)| p.1)));
            }
        }
        i += 1;
    }
    proof {
        assert(ev.take(expected@.len() as int) =~= ev);
    }
    out
}

/// The names of the captured sections, in capture order.
pub open spec fn block_names(blocks: Seq<(Seq<char>, Seq<char>)>) -> Seq<Seq<char>> {
    blocks.map_values(|p: (Seq<char>, Seq<char>)| p.0)
}

/// A found index lies in range and carries the name searched for.
proof fn lemma_find_key_hit(blocks: Seq<(Seq<char>, Seq<char>)>, k: Seq<char>, i: int)
    requires
        0 <= i <= blocks.len(),
    ensures
        ({
            let f = find_key(blocks, k, i);
            f >= 0 ==> i <= f < blocks.len() && blocks[f].0 == k
        }),
    decreases blocks.len() - i,
{
    if i < blocks.len() && blocks[i].0 != k {
        lemma_find_key_hit(blocks, k, i + 1);
    }
}

/// A name is found among the blocks exactly when some block carries it.
proof fn lemma_find_key_contains(blocks: Seq<(Seq<char>, Seq<char>)>, k: Seq<char>, i: int)
    requires
        0 <= i <= blocks.len(),
    ensures
        (find_key(blocks, k, i) >= 0) <==> (exists|j: int|
            i <= j < blocks.len() && blocks[j].0 == k),
    decreases blocks.len() - i,
{
    if i < blocks.len() {
        lemma_find_key_contains(blocks, k, i + 1);
        if blocks[i].0 == k {
            assert(i <= i < blocks.len() && blocks[i].0 == k);
        }
    }
}

/// Reassembly emits exactly the expected section names that were captured,
/// in expected order: the section-order correctness of the text pass.
pub proof fn lemma_chosen_block_names(blocks: Seq<(Seq<char>, Seq<char>)>, expected: Seq<Seq<char>>)
    ensures
        block_names(chosen_blocks(blocks, expected)) == crate::order::keep_present(
            expected,
            block_names(blocks),
        ),
    decreases expected.len(),
{
    if expected.len() == 0 {
        assert(block_names(chosen_blocks(blocks, expected)) =~= crate::order::keep_present(
            expected,
            block_names(blocks),
        ));
    } else {
        lemma_chosen_block_names(blocks, expected.drop_last());
        let k = expected.last();
        lemma_find_key_contains(blocks, k, 0);
        lemma_find_key_hit(blocks, k, 0);
        let f = find_key(blocks, k, 0);
        if f >= 0 {
            assert(block_names(blocks)[f] == k);
            assert(block_names(blocks).contains(k));
            assert(block_names(chosen_blocks(blocks, expected)) =~= block_names(
                chosen_blocks(blocks, expected.drop_last()),
            ) + seq![k]);
        } else {
            if block_names(blocks).contains(k) {
                let j = choose|j: int|
                    0 <= j < block_names(blocks).len() && block_names(blocks)[j] == k;
                assert(blocks[j].0 == k);
            }
            assert(!block_names(blocks).contains(k));
            assert(block_names(chosen_blocks(blocks, expected)) =~= block_names(
                chosen_blocks(blocks, expected.drop_last()),
            ));
        }
    }
}

/// Reorders serialized manifest text so that its sections follow `expected`;
/// every captured block keeps its own text exactly.
pub fn reorder_text(text: &Vec<char>, expected: &Vec<Vec<char>>) -> (r: Vec<char>)
    ensures
        r@ == reassemble(scan_sections(lines_of(text@)), views_of(expected@)),
        block_names(chosen_blocks(scan_sections(lines_of(text@)), views_of(expected@)))
            == crate::order::keep_present(
            views_of(expected@),
            block_names(scan_sections(lines_of(text@))),
        ),
{
    proof {
        lemma_chosen_block_names(scan_sections(lines_of(text@)), views_of(expected@));
    }
    let lines = split_lines(text);
    let blocks = scan_text_sections(&lines);
    reassemble_text(&blocks, expected)
}

} // verus!

verus! {

/// Storing a block keeps the captured names distinct; a new name is
/// appended, a known one keeps the list unchanged.
proof fn lemma_acc_set_names(acc: Seq<(Seq<char>, Seq<char>)>, k: Seq<char>, v: Seq<char>)
    requires
        block_names(acc).no_duplicates(),
    ensures
        block_names(acc_set(acc, k, v)).no_duplicates(),
    decreases acc.len(),
{
    let f = find_key(acc, k, 0);
    if f < 0 {
        lemma_find_key_contains(acc, k, 0);
        assert(block_names(acc_set(acc, k, v)) =~= block_names(acc).push(k));
        assert forall|a: int, b: int|
            0 <= a < b < block_names(acc).push(k).len() implies block_names(acc).push(k)[a]
            != block_names(acc).push(k)[b] by {
            if b == block_names(acc).len() {
                assert(block_names(acc).push(k)[a] == acc[a].0);
                if acc[a].0 == k {
                    assert(0 <= a < acc.len() && acc[a].0 == k);
                }
            }
        }
    } else {
        lemma_find_key_hit(acc, k, 0);
        assert(block_names(acc_set(acc, k, v)) =~= block_names(acc));
    }
}

/// Every state the scan reaches keeps its captured names distinct.
proof fn lemma_scan_from_names(lines: Seq<Seq<char>>, i: int, st: ScanState)
    requires
        0 <= i <= lines.len(),
        block_names(st.acc).no_duplicates(),
    ensures
        block_names(scan_from(lines, i, st)).no_duplicates(),
    decreases lines.len() - i,
{
    if i >= lines.len() {
        match st.cur {
            Some(p) => {
                lemma_acc_set_names(st.acc, p.0, p.1);
            },
            None => {},
        }
    } else {
        let st2 = scan_step(st, lines[i]);
        assert(block_names(st2.acc).no_duplicates()) by {
            if st2.acc != st.acc {
                match st.cur {
                    Some(p) => {
                        lemma_acc_set_names(st.acc, p.0, p.1);
                    },
                    None => {},
                }
            }
        }
        lemma_scan_from_names(lines, i + 1, st2);
    }
}

/// The scan captures each section name once.
pub proof fn lemma_scan_names_distinct(lines: Seq<Seq<char>>)
    ensures
        block_names(scan_sections(lines)).no_duplicates(),
{
    let st = ScanState { cur: None, acc: Seq::empty() };
    assert(block_names(st.acc) =~= Seq::<Seq<char>>::empty());
    lemma_scan_from_names(lines, 0, st);
}

/// Each emitted pair is the block that carries its name.
proof fn lemma_chosen_pairs(blocks: Seq<(Seq<char>, Seq<char>)>, expected: Seq<Seq<char>>)
    ensures
        forall|j: int|
            0 <= j < chosen_blocks(blocks, expected).len() ==> {
                let p = #[trigger] chosen_blocks(blocks, expected)[j];
                0 <= find_key(blocks, p.0, 0) < blocks.len() && p == blocks[find_key(
                    blocks,
                    p.0,
                    0,
                )]
            },
    decreases expected.len(),
{
    if expected.len() > 0 {
        lemma_chosen_pairs(blocks, expected.drop_last());
        let k = expected.last();
        let f = find_key(blocks, k, 0);
        lemma_find_key_hit(blocks, k, 0);
        let ch = chosen_blocks(blocks, expected);
        let pre = chosen_blocks(blocks, expected.drop_last());
        if f >= 0 {
            assert forall|j: int| 0 <= j < ch.len() implies {
                let p = #[trigger] ch[j];
                0 <= find_key(blocks, p.0, 0) < blocks.len() && p == blocks[find_key(
                    blocks,
                    p.0,
                    0,
                )]
            } by {
                if j < pre.len() {
                    assert(ch[j] == pre[j]);
                } else {
                    assert(ch[j] == (k, blocks[f].1));
                    assert(blocks[f].0 == k);
                    assert(blocks[f] == (blocks[f].0, blocks[f].1));
                }
            }
        } else {
            assert(ch == pre);
            assert forall|j: int| 0 <= j < ch.len() implies {
                let p = #[trigger] ch[j];
                0 <= find_key(blocks, p.0, 0) < blocks.len() && p == blocks[find_key(
                    blocks,
                    p.0,
                    0,
                )]
            } by {
                assert(ch[j] == pre[j]);
            }
        }
    }
}

/// When every captured name is expected and names are distinct on both
/// sides, reassembly emits every captured block exactly once: no section's
/// text is dropped or duplicated by the reordering pass.
pub proof fn lemma_reassemble_keeps_blocks(
    blocks: Seq<(Seq<char>, Seq<char>)>,
    expected: Seq<Seq<char>>,
)
    requires
        block_names(blocks).no_duplicates(),
        expected.no_duplicates(),
        forall|i: int| 0 <= i < blocks.len() ==> expected.contains(#[trigger] blocks[i].0),
    ensures
        chosen_blocks(blocks, expected).to_multiset() == blocks.to_multiset(),
{
    let ch = chosen_blocks(blocks, expected);
    let names = block_names(blocks);
    lemma_chosen_block_names(blocks, expected);
    crate::order::lemma_keep_present_distinct(expected, names);
    lemma_chosen_pairs(blocks, expected);
    // chosen names and block names hold the same members.
    assert forall|k: Seq<char>| #[trigger] block_names(ch).contains(k) <==> names.contains(
        k,
    ) by {
        crate::order::lemma_keep_present_membership(expected, names, k);
        if names.contains(k) {
            let i = choose|i: int| 0 <= i < names.len() && names[i] == k;
            assert(blocks[i].0 == k);
            assert(expected.contains(k));
        }
    }
    // distinct names make distinct pairs on both sides.
    assert(ch.no_duplicates()) by {
        assert forall|a: int, b: int|
            0 <= a < ch.len() && 0 <= b < ch.len() && a != b implies ch[a] != ch[b] by {
            assert(block_names(ch)[a] == ch[a].0);
            assert(block_names(ch)[b] == ch[b].0);
        }
    }
    assert(blocks.no_duplicates()) by {
        assert forall|a: int, b: int|
            0 <= a < blocks.len() && 0 <= b < blocks.len() && a != b implies blocks[a]
            != blocks[b] by {
            assert(names[a] == blocks[a].0);
            assert(names[b] == blocks[b].0);
        }
    }
    // the same pairs stand on both sides.
    assert forall|p: (Seq<char>, Seq<char>)| #[trigger] ch.contains(p) <==> blocks.contains(
        p,
    ) by {
        if ch.contains(p) {
            let j = choose|j: int| 0 <= j < ch.len() && ch[j] == p;
            assert(p == blocks[find_key(blocks, p.0, 0)]);
        }
        if blocks.contains(p) {
            let i = choose|i: int| 0 <= i < blocks.len() && blocks[i] == p;
            assert(names[i] == p.0);
            assert(block_names(ch).contains(p.0));
            let j = choose|j: int| 0 <= j < block_names(ch).len() && block_names(ch)[j] == p.0;
            assert(ch[j].0 == p.0);
            assert(ch[j] == blocks[find_key(blocks, p.0, 0)]);
            lemma_find_key_hit(blocks, p.0, 0);
            lemma_find_key_contains(blocks, p.0, 0);
            let f = find_key(blocks, p.0, 0);
            assert(blocks[f].0 == p.0);
            assert(names[f] == p.0);
            assert(f == i);
            assert(ch[j] == p);
        }
    }
    ch.lemma_multiset_has_no_duplicates();
    blocks.lemma_multiset_has_no_duplicates();
    assert forall|p: (Seq<char>, Seq<char>)|
        ch.to_multiset().count(p) == blocks.to_multiset().count(p) by {
        vstd::seq_lib::to_multiset_contains(ch, p);
        vstd::seq_lib::to_multiset_contains(blocks, p);
        if ch.contains(p) {
            assert(blocks.contains(p));
        } else {
            assert(!blocks.contains(p));
        }
    }
    assert(ch.to_multiset() =~= blocks.to_multiset());
}

} // verus!
