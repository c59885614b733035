//! Character-level helpers: whitespace, trimming, and the line-oriented
//! clean-up passes that run over the finished buffer.

use vstd::prelude::*;

verus! {

/// Whether `c` carries the Unicode `White_Space` property.
pub open spec fn is_space(c: char) -> bool {
    let n = c as u32;
    ||| (0x09 <= n && n <= 0x0D)
    ||| n == 0x20
    ||| n == 0x85
    ||| n == 0xA0
    ||| n == 0x1680
    ||| (0x2000 <= n && n <= 0x200A)
    ||| n == 0x2028
    ||| n == 0x2029
    ||| n == 0x202F
    ||| n == 0x205F
    ||| n == 0x3000
}

/// `s` without its leading whitespace.
pub open spec fn trim_start(s: Seq<char>) -> Seq<char>
    decreases s.len(),
{
    if s.len() > 0 && is_space(s[0]) {
        trim_start(s.drop_first())
    } else {
        s
    }
}

/// `s` without its trailing whitespace.
pub open spec fn trim_end(s: Seq<char>) -> Seq<char>
    decreases s.len(),
{
    if s.len() > 0 && is_space(s.last()) {
        trim_end(s.drop_last())
    } else {
        s
    }
}

/// `s` without leading and trailing whitespace.
pub open spec fn trim(s: Seq<char>) -> Seq<char> {
    trim_end(trim_start(s))
}

/// A line is blank when nothing is left of it after trimming.
pub open spec fn is_blank(line: Seq<char>) -> bool {
    trim(line).len() == 0
}

/// The lines of `s`: the maximal runs of characters between `'\n'`
/// separators. There is always at least one line; the empty text has one
/// empty line.
pub open spec fn split_lines(s: Seq<char>) -> Seq<Seq<char>>
    decreases s.len(),
{
    if s.len() == 0 {
        seq![Seq::<char>::empty()]
    } else {
        let before = split_lines(s.drop_last());
        if s.last() == '\n' {
            before.push(Seq::<char>::empty())
        } else {
            before.drop_last().push(before.last().push(s.last()))
        }
    }
}

/// The lines joined by single `'\n'` separators.
pub open spec fn join_lines(lines: Seq<Seq<char>>) -> Seq<char>
    decreases lines.len(),
{
    if lines.len() == 0 {
        Seq::<char>::empty()
    } else if lines.len() == 1 {
        lines[0]
    } else {
        join_lines(lines.drop_last()).push('\n') + lines.last()
    }
}

/// The non-blank lines among `lines`, in order.
pub open spec fn keep_nonblank(lines: Seq<Seq<char>>) -> Seq<Seq<char>>
    decreases lines.len(),
{
    if lines.len() == 0 {
        Seq::<Seq<char>>::empty()
    } else if is_blank(lines.last()) {
        keep_nonblank(lines.drop_last())
    } else {
        keep_nonblank(lines.drop_last()).push(lines.last())
    }
}

/// The text with its blank lines removed.
pub open spec fn without_blank_lines(s: Seq<char>) -> Seq<char> {
    join_lines(keep_nonblank(split_lines(s)))
}

/// The text with its first and its last line removed; empty when it has
/// fewer than two lines.
pub open spec fn without_boundary_lines(s: Seq<char>) -> Seq<char> {
    let lines = split_lines(s);
    if lines.len() < 2 {
        Seq::<char>::empty()
    } else {
        join_lines(lines.subrange(1, lines.len() - 1))
    }
}

/// Every line of the sequence is free of `'\n'`.
pub open spec fn single_lines(lines: Seq<Seq<char>>) -> bool {
    forall|i: int, j: int|
        0 <= i < lines.len() && 0 <= j < lines[i].len() ==> (#[trigger] lines[i][j]) != '\n'
}

/// A text has at least one line, and no line holds a `'\n'`.
pub proof fn lemma_split_lines_shape(s: Seq<char>)
    ensures
        split_lines(s).len() >= 1,
        single_lines(split_lines(s)),
    decreases s.len(),
{
    if s.len() > 0 {
        lemma_split_lines_shape(s.drop_last());
    }
}

/// A text without `'\n'` is one line: itself.
pub proof fn lemma_split_single(b: Seq<char>)
    requires
        forall|j: int| 0 <= j < b.len() ==> b[j] != '\n',
    ensures
        split_lines(b) == seq![b],
    decreases b.len(),
{
    if b.len() > 0 {
        lemma_split_single(b.drop_last());
        assert(b[b.len() - 1] != '\n');
        let before = seq![b.drop_last()];
        assert(before.drop_last() =~= Seq::<Seq<char>>::empty());
        assert(before.last().push(b.last()) =~= b);
        assert(split_lines(b) =~= seq![b]);
    } else {
        assert(b =~= Seq::<char>::empty());
    }
}

/// What follows a `'\n'`, when it holds no further `'\n'`, is one more line.
pub proof fn lemma_split_after_newline(a: Seq<char>, b: Seq<char>)
    requires
        forall|j: int| 0 <= j < b.len() ==> b[j] != '\n',
    ensures
        split_lines(a.push('\n') + b) == split_lines(a).push(b),
    decreases b.len(),
{
    let s = a.push('\n') + b;
    if b.len() == 0 {
        assert(s.drop_last() =~= a);
        assert(b =~= Seq::<char>::empty());
    } else {
        lemma_split_after_newline(a, b.drop_last());
        assert(s.drop_last() =~= a.push('\n') + b.drop_last());
        assert(s.last() == b.last());
        assert(b.drop_last().push(b.last()) =~= b);
        assert(split_lines(s) =~= split_lines(a).push(b));
    }
}

/// Splitting undoes joining: lines that hold no `'\n'`, at least one of
/// them, come back as they were.
pub proof fn lemma_split_join(lines: Seq<Seq<char>>)
    requires
        lines.len() >= 1,
        single_lines(lines),
    ensures
        split_lines(join_lines(lines)) == lines,
    decreases lines.len(),
{
    if lines.len() == 1 {
        lemma_split_single(lines[0]);
        assert(seq![lines[0]] =~= lines);
    } else {
        let init = lines.drop_last();
        assert(single_lines(init)) by {
            assert forall|i: int, j: int|
                0 <= i < init.len() && 0 <= j < init[i].len() implies (#[trigger] init[i][j])
                != '\n' by {
                assert(init[i][j] == lines[i][j]);
            }
        }
        lemma_split_join(init);
        assert forall|j: int| 0 <= j < lines.last().len() implies lines.last()[j] != '\n' by {
            assert(lines[lines.len() - 1][j] != '\n');
        }
        lemma_split_after_newline(join_lines(init), lines.last());
        assert(init.push(lines.last()) =~= lines);
    }
}

/// No line of the sequence is blank.
pub open spec fn all_nonblank(lines: Seq<Seq<char>>) -> bool {
    forall|i: int| 0 <= i < lines.len() ==> !is_blank(#[trigger] lines[i])
}

/// The lines kept are not blank, hold no `'\n'` where the given ones held
/// none, and are all the lines where none was blank.
pub proof fn lemma_keep_nonblank(lines: Seq<Seq<char>>)
    ensures
        all_nonblank(keep_nonblank(lines)),
        single_lines(lines) ==> single_lines(keep_nonblank(lines)),
        all_nonblank(lines) ==> keep_nonblank(lines) == lines,
    decreases lines.len(),
{
    if lines.len() > 0 {
        let init = lines.drop_last();
        lemma_keep_nonblank(init);
        let kept = keep_nonblank(lines);
        if single_lines(lines) {
            assert(single_lines(init)) by {
                assert forall|i: int, j: int|
                    0 <= i < init.len() && 0 <= j < init[i].len() implies (#[trigger] init[i][j])
                    != '\n' by {
                    assert(init[i][j] == lines[i][j]);
                }
            }
            assert forall|i: int, j: int|
                0 <= i < kept.len() && 0 <= j < kept[i].len() implies (#[trigger] kept[i][j])
                != '\n' by {
                if i < keep_nonblank(init).len() {
                    assert(kept[i][j] == keep_nonblank(init)[i][j]);
                } else {
                    assert(kept[i][j] == lines[lines.len() - 1][j]);
                }
            }
        }
        if all_nonblank(lines) {
            assert(all_nonblank(init)) by {
                assert forall|i: int| 0 <= i < init.len() implies !is_blank(
                    #[trigger] init[i],
                ) by {
                    assert(init[i] == lines[i]);
                }
            }
            assert(!is_blank(lines[lines.len() - 1]));
            assert(init.push(lines.last()) =~= lines);
        }
    } else {
        assert(keep_nonblank(lines) =~= lines);
    }
}

/// The lines of a text that goes on after a line break: the lines before
/// the break, then the lines of what follows it.
pub proof fn lemma_split_concat(x: Seq<char>, y: Seq<char>)
    requires
        x.len() > 0,
        x.last() == '\n',
    ensures
        split_lines(x + y) == split_lines(x).drop_last() + split_lines(y),
    decreases y.len(),
{
    let s = x + y;
    let a = split_lines(x).drop_last();
    let e = Seq::<char>::empty();
    lemma_split_lines_shape(x.drop_last());
    if y.len() == 0 {
        assert(s =~= x);
        assert(split_lines(y) =~= seq![e]);
        assert(a =~= split_lines(x.drop_last()));
        assert(split_lines(x) =~= a + split_lines(y));
    } else {
        lemma_split_concat(x, y.drop_last());
        lemma_split_lines_shape(y.drop_last());
        assert(s.drop_last() =~= x + y.drop_last());
        assert(s.last() == y.last());
        let by = split_lines(y.drop_last());
        if y.last() == '\n' {
            assert((a + by).push(e) =~= a + by.push(e));
        } else {
            let c = y.last();
            assert((a + by).drop_last() =~= a + by.drop_last());
            assert((a + by).last() == by.last());
            assert((a + by).drop_last().push((a + by).last().push(c)) =~= a + by.drop_last().push(
                by.last().push(c),
            ));
        }
    }
}

/// Characters without `'\n'` added to a text lengthen its last line.
pub proof fn lemma_split_suffix(b: Seq<char>, w: Seq<char>)
    requires
        forall|j: int| 0 <= j < w.len() ==> w[j] != '\n',
    ensures
        split_lines(b + w) == split_lines(b).drop_last().push(split_lines(b).last() + w),
    decreases w.len(),
{
    lemma_split_lines_shape(b);
    let s = b + w;
    let sb = split_lines(b);
    if w.len() == 0 {
        assert(s =~= b);
        assert(sb.last() + w =~= sb.last());
        assert(sb.drop_last().push(sb.last()) =~= sb);
    } else {
        lemma_split_suffix(b, w.drop_last());
        assert(s.drop_last() =~= b + w.drop_last());
        assert(s.last() == w.last());
        assert(w[w.len() - 1] != '\n');
        let prev = sb.drop_last().push(sb.last() + w.drop_last());
        assert(prev.drop_last() =~= sb.drop_last());
        assert(prev.last().push(w.last()) =~= sb.last() + w);
    }
}

/// Keeping the non-blank lines goes through concatenation.
pub proof fn lemma_keep_concat(a: Seq<Seq<char>>, b: Seq<Seq<char>>)
    ensures
        keep_nonblank(a + b) == keep_nonblank(a) + keep_nonblank(b),
    decreases b.len(),
{
    if b.len() == 0 {
        assert(a + b =~= a);
        assert(keep_nonblank(a) + keep_nonblank(b) =~= keep_nonblank(a));
    } else {
        lemma_keep_concat(a, b.drop_last());
        assert((a + b).drop_last() =~= a + b.drop_last());
        assert((a + b).last() == b.last());
        if !is_blank(b.last()) {
            assert((keep_nonblank(a) + keep_nonblank(b.drop_last())).push(b.last())
                =~= keep_nonblank(a) + keep_nonblank(b.drop_last()).push(b.last()));
        }
    }
}

/// What is left after trimming the start still holds a character other
/// than whitespace, where the text held one.
proof fn lemma_trim_start_keeps(s: Seq<char>, i: int)
    requires
        0 <= i < s.len(),
        !is_space(s[i]),
    ensures
        exists|j: int| 0 <= j < trim_start(s).len() && !is_space(#[trigger] trim_start(s)[j]),
    decreases s.len(),
{
    if is_space(s[0]) {
        assert(s.drop_first()[i - 1] == s[i]);
        lemma_trim_start_keeps(s.drop_first(), i - 1);
        let t = trim_start(s.drop_first());
        let j = choose|j: int| 0 <= j < t.len() && !is_space(#[trigger] t[j]);
        assert(trim_start(s) == t);
        assert(!is_space(trim_start(s)[j]));
    } else {
        assert(!is_space(trim_start(s)[i]));
    }
}

/// Trimming the end stops at or after a character other than whitespace.
proof fn lemma_trim_end_keeps(s: Seq<char>, i: int)
    requires
        0 <= i < s.len(),
        !is_space(s[i]),
    ensures
        trim_end(s).len() > i,
    decreases s.len(),
{
    if is_space(s.last()) {
        assert(s.drop_last()[i] == s[i]);
        lemma_trim_end_keeps(s.drop_last(), i);
    }
}

/// A line that holds a character other than whitespace is not blank.
pub proof fn lemma_nonblank_by_witness(line: Seq<char>, i: int)
    requires
        0 <= i < line.len(),
        !is_space(line[i]),
    ensures
        !is_blank(line),
{
    lemma_trim_start_keeps(line, i);
    let t = trim_start(line);
    let j = choose|j: int| 0 <= j < t.len() && !is_space(#[trigger] t[j]);
    lemma_trim_end_keeps(t, j);
}

/// A text is clean when it is empty or none of its lines is blank.
pub open spec fn is_clean(t: Seq<char>) -> bool {
    t.len() == 0 || all_nonblank(split_lines(t))
}

/// Removing blank lines leaves a clean text.
pub proof fn lemma_without_blank_lines_is_clean(s: Seq<char>)
    ensures
        is_clean(without_blank_lines(s)),
{
    let kept = keep_nonblank(split_lines(s));
    lemma_split_lines_shape(s);
    lemma_keep_nonblank(split_lines(s));
    if kept.len() > 0 {
        lemma_split_join(kept);
    }
}

/// Removing blank lines twice gives what removing them once gives.
pub proof fn lemma_without_blank_lines_idempotent(s: Seq<char>)
    ensures
        without_blank_lines(without_blank_lines(s)) == without_blank_lines(s),
{
    let kept = keep_nonblank(split_lines(s));
    lemma_split_lines_shape(s);
    lemma_keep_nonblank(split_lines(s));
    if kept.len() == 0 {
        let e = Seq::<char>::empty();
        assert(join_lines(kept) =~= e);
        assert(split_lines(e) =~= seq![e]);
        assert(trim_start(e) =~= e);
        assert(is_blank(e));
        let one = seq![e];
        let none = Seq::<Seq<char>>::empty();
        assert(one.last() == e);
        assert(one.drop_last() =~= none);
        assert(keep_nonblank(none) =~= none);
        assert(keep_nonblank(one) =~= none);
    } else {
        lemma_split_join(kept);
        lemma_keep_nonblank(kept);
    }
}

/// After both clean-up passes the text is clean: it is empty, or none of
/// its lines is blank.
pub proof fn lemma_cleaned_text_is_clean(s: Seq<char>)
    ensures
        is_clean(without_boundary_lines(without_blank_lines(s))),
{
    let kept = keep_nonblank(split_lines(s));
    lemma_split_lines_shape(s);
    lemma_keep_nonblank(split_lines(s));
    if kept.len() >= 2 {
        lemma_split_join(kept);
        let inner = kept.subrange(1, kept.len() - 1);
        if inner.len() > 0 {
            assert(single_lines(inner)) by {
                assert forall|i: int, j: int|
                    0 <= i < inner.len() && 0 <= j < inner[i].len() implies (
                #[trigger] inner[i][j]) != '\n' by {
                    assert(inner[i][j] == kept[i + 1][j]);
                }
            }
            assert(all_nonblank(inner)) by {
                assert forall|i: int| 0 <= i < inner.len() implies !is_blank(
                    #[trigger] inner[i],
                ) by {
                    assert(inner[i] == kept[i + 1]);
                }
            }
            lemma_split_join(inner);
        }
    } else if kept.len() == 1 {
        lemma_split_join(kept);
    } else {
        let e = Seq::<char>::empty();
        assert(join_lines(kept) =~= e);
        assert(split_lines(e) =~= seq![e]);
    }
}

/// Whether `c` is whitespace.
pub fn char_is_space(c: char) -> (result: bool)
    ensures
        result == is_space(c),
{
    let n: u32 = c as u32;
    (0x09 <= n && n <= 0x0D) || n == 0x20 || n == 0x85 || n == 0xA0 || n == 0x1680 || (0x2000 <= n
        && n <= 0x200A) || n == 0x2028 || n == 0x2029 || n == 0x202F || n == 0x205F || n == 0x3000
}

/// The characters of `s`.
pub fn chars_of(s: &str) -> (result: Vec<char>)
    ensures
        result@ == s@,
{
    let mut out: Vec<char> = Vec::new();
    for c in it: s.chars()
        invariant
            it.seq() == s@,
            out@ == s@.take(it.index() as int),
    {
        out.push(c);
    }
    out
}

/// `String::push` of the standard library. Trusted: it appends the one
/// character to the end of the text.
pub assume_specification[ String::push ](s: &mut String, c: char)
    ensures
        final(s)@ == old(s)@.push(c),
;

/// The text made of the characters of `v`.
pub fn string_of(v: &Vec<char>) -> (result: String)
    ensures
        result@ == v@,
{
    let mut out = String::new();
    let n: usize = v.len();
    let mut i: usize = 0;
    while i < n
        invariant
            n == v.len(),
            i <= n,
            out@ == v@.take(i as int),
        decreases n - i,
    {
        out.push(v[i]);
        i = i + 1;
    }
    out
}

/// Appends the characters of `src` to `out`.
pub fn append_chars(out: &mut Vec<char>, src: &Vec<char>)
    ensures
        final(out)@ == old(out)@ + src@,
{
    let n: usize = src.len();
    let mut i: usize = 0;
    while i < n
        invariant
            n == src.len(),
            i <= n,
            out@ == old(out)@ + src@.take(i as int),
        decreases n - i,
    {
        out.push(src[i]);
        i = i + 1;
    }
}

/// The characters of `s` without leading and trailing whitespace.
pub fn trim_chars(s: &Vec<char>) -> (result: Vec<char>)
    ensures
        result@ == trim(s@),
{
    let n: usize = s.len();
    let mut start: usize = 0;
    proof {
        assert(s@.skip(0) =~= s@);
    }
    while start < n && char_is_space(s[start])
        invariant
            n == s.len(),
            start <= n,
            trim_start(s@) == trim_start(s@.skip(start as int)),
        decreases n - start,
    {
        proof {
            assert(s@.skip(start as int).drop_first() =~= s@.skip(start + 1));
        }
        start = start + 1;
    }
    assert(trim_start(s@) == s@.skip(start as int));
    let mut end: usize = n;
    while end > start && char_is_space(s[end - 1])
        invariant
            n == s.len(),
            start <= end <= n,
            trim(s@) == trim_end(s@.subrange(start as int, end as int)),
        decreases end,
    {
        proof {
            assert(s@.subrange(start as int, end as int).drop_last() =~= s@.subrange(
                start as int,
                end - 1,
            ));
        }
        end = end - 1;
    }
    assert(trim(s@) == s@.subrange(start as int, end as int));
    let mut out: Vec<char> = Vec::new();
    let mut i: usize = start;
    while i < end
        invariant
            start <= i <= end <= s.len(),
            out@ == s@.subrange(start as int, i as int),
        decreases end - i,
    {
        out.push(s[i]);
        i = i + 1;
    }
    out
}

/// The views of the lines held in `lines`.
pub open spec fn line_views(lines: Seq<Vec<char>>) -> Seq<Seq<char>> {
    lines.map_values(|l: Vec<char>| l@)
}

/// Splits `s` at its `'\n'` separators.
pub fn lines_of(s: &Vec<char>) -> (result: Vec<Vec<char>>)
    ensures
        line_views(result@) == split_lines(s@),
{
    let mut lines: Vec<Vec<char>> = Vec::new();
    let mut cur: Vec<char> = Vec::new();
    let n: usize = s.len();
    let mut i: usize = 0;
    while i < n
        invariant
            n == s.len(),
            i <= n,
            line_views(lines@).push(cur@) == split_lines(s@.take(i as int)),
        decreases n - i,
    {
        let c = s[i];
        proof {
            assert(s@.take(i + 1).drop_last() =~= s@.take(i as int));
            assert(s@.take(i + 1).last() == c);
        }
        let ghost before = line_views(lines@).push(cur@);
        if c == '\n' {
            lines.push(cur);
            cur = Vec::new();
            proof {
                assert(line_views(lines@) =~= before);
            }
        } else {
            cur.push(c);
            proof {
                assert(line_views(lines@).push(cur@) =~= before.drop_last().push(
                    before.last().push(c),
                ));
            }
        }
        i = i + 1;
    }
    proof {
        assert(s@.take(n as int) =~= s@);
    }
    let ghost before = line_views(lines@).push(cur@);
    lines.push(cur);
    proof {
        assert(line_views(lines@) =~= before);
    }
    lines
}

/// Joins `lines[from..to]` with `'\n'` separators.
pub fn join_range(lines: &Vec<Vec<char>>, from: usize, to: usize) -> (result: Vec<char>)
    requires
        from <= to <= lines.len(),
    ensures
        result@ == join_lines(line_views(lines@).subrange(from as int, to as int)),
{
    let mut out: Vec<char> = Vec::new();
    let mut k: usize = from;
    while k < to
        invariant
            from <= k <= to <= lines.len(),
            out@ == join_lines(line_views(lines@).subrange(from as int, k as int)),
        decreases to - k,
    {
        let ghost next = line_views(lines@).subrange(from as int, k + 1);
        proof {
            assert(next.drop_last() =~= line_views(lines@).subrange(from as int, k as int));
            assert(next.last() == lines@[k as int]@);
        }
        if k > from {
            out.push('\n');
        }
        append_chars(&mut out, &lines[k]);
        proof {
            assert(out@ =~= join_lines(next));
        }
        k = k + 1;
    }
    out
}

/// Joins the non-blank lines among `lines` with `'\n'` separators.
pub fn join_nonblank(lines: &Vec<Vec<char>>) -> (result: Vec<char>)
    ensures
        result@ == join_lines(keep_nonblank(line_views(lines@))),
{
    let mut out: Vec<char> = Vec::new();
    let mut any: bool = false;
    let n: usize = lines.len();
    let mut k: usize = 0;
    while k < n
        invariant
            n == lines.len(),
            k <= n,
            any == (keep_nonblank(line_views(lines@).take(k as int)).len() > 0),
            out@ == join_lines(keep_nonblank(line_views(lines@).take(k as int))),
        decreases n - k,
    {
        let ghost next = line_views(lines@).take(k + 1);
        proof {
            assert(next.drop_last() =~= line_views(lines@).take(k as int));
            assert(next.last() == lines@[k as int]@);
        }
        let trimmed = trim_chars(&lines[k]);
        if trimmed.len() > 0 {
            if any {
                out.push('\n');
            }
            append_chars(&mut out, &lines[k]);
            any = true;
            proof {
                let kept = keep_nonblank(next);
                assert(kept.drop_last() =~= keep_nonblank(next.drop_last()));
                assert(out@ =~= join_lines(kept));
            }
        }
        k = k + 1;
    }
    proof {
        assert(line_views(lines@).take(n as int) =~= line_views(lines@));
    }
    out
}

/// Drops the blank lines of `s`: the lines that hold nothing but whitespace.
/// The lines that stay are joined by single `'\n'` separators.
pub fn remove_empty_lines(s: &str) -> (result: String)
    ensures
        result@ == without_blank_lines(s@),
        is_clean(result@),
{
    proof {
        lemma_without_blank_lines_is_clean(s@);
    }
    let chars = chars_of(s);
    let lines = lines_of(&chars);
    let out = join_nonblank(&lines);
    string_of(&out)
}

/// Drops the first and the last line of `s`. A text of fewer than two lines
/// has nothing between them: the result is empty.
pub fn remove_first_and_last_line(s: &str) -> (result: String)
    ensures
        result@ == without_boundary_lines(s@),
{
    let chars = chars_of(s);
    let lines = lines_of(&chars);
    if lines.len() < 2 {
        String::new()
    } else {
        let out = join_range(&lines, 1, lines.len() - 1);
        string_of(&out)
    }
}

} // verus!
