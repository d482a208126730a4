use vstd::prelude::*;

use crate::util::{char_range, str_chars, string_range, chars_to_string};

verus! {

/// One segment of text, as the math scanner classifies it.
///
/// Math segments hold their exact source substring, with the dollar
/// delimiters stripped.
#[derive(Debug, Clone, PartialEq, Eq)]
pub enum Block {
    Plain(String),
    BlockMath(String),
    InlineMath(String),
}

/// The mathematical value of one scanned segment.
#[verifier::ext_equal]
pub enum SegView {
    Plain(Seq<char>),
    BlockMath(Seq<char>),
    InlineMath(Seq<char>),
}

impl View for Block {
    type V = SegView;

    open spec fn view(&self) -> SegView {
        match self {
            Block::Plain(t) => SegView::Plain(t@),
            Block::BlockMath(t) => SegView::BlockMath(t@),
            Block::InlineMath(t) => SegView::InlineMath(t@),
        }
    }
}

/// The source text one segment stands for, its delimiters reinstated.
pub open spec fn seg_source(g: SegView) -> Seq<char> {
    match g {
        SegView::Plain(t) => t,
        SegView::BlockMath(t) => seq!['$', '$'] + t + seq!['$', '$'],
        SegView::InlineMath(t) => seq!['$'] + t + seq!['$'],
    }
}

/// The source text a list of segments stands for.
pub open spec fn segs_source(gs: Seq<SegView>) -> Seq<char>
    decreases gs.len(),
{
    if gs.len() == 0 {
        Seq::empty()
    } else {
        seg_source(gs[0]) + segs_source(gs.drop_first())
    }
}

/// Where the closing delimiter of an open span starts, scanning `t` from
/// position `i`: a backslash skips itself and the next `delim.len()`
/// characters, whether or not they would close the span.
pub open spec fn find_close(delim: Seq<char>, t: Seq<char>, i: int) -> Option<int>
    decreases t.len() - i,
    when 0 <= i <= t.len() && delim.len() >= 1
{
    if i >= t.len() {
        None
    } else if t[i] == '\\' {
        if i + 1 + delim.len() <= t.len() {
            find_close(delim, t, i + 1 + delim.len())
        } else {
            None
        }
    } else if i + delim.len() <= t.len() && t.subrange(i, i + delim.len()) == delim {
        Some(i)
    } else {
        find_close(delim, t, i + 1)
    }
}

/// When a closing delimiter is found, it starts no earlier than the scan
/// did, fits inside the text, and matches the delimiter itself.
pub proof fn lemma_find_close_bounds(delim: Seq<char>, t: Seq<char>, i: int)
    requires
        0 <= i <= t.len(),
        delim.len() >= 1,
        find_close(delim, t, i) is Some,
    ensures
        i <= find_close(delim, t, i)->Some_0,
        find_close(delim, t, i)->Some_0 + delim.len() <= t.len(),
        t.subrange(find_close(delim, t, i)->Some_0, find_close(delim, t, i)->Some_0 + delim.len())
            == delim,
    decreases t.len() - i,
{
    if i >= t.len() {
    } else if t[i] == '\\' {
        if i + 1 + delim.len() <= t.len() {
            lemma_find_close_bounds(delim, t, i + 1 + delim.len());
        }
    } else if i + delim.len() <= t.len() && t.subrange(i, i + delim.len()) == delim {
    } else {
        lemma_find_close_bounds(delim, t, i + 1);
    }
}

/// A pending run of plain text, as segments: nothing when it is empty.
pub open spec fn flush(buf: Seq<char>) -> Seq<SegView> {
    if buf.len() == 0 {
        Seq::empty()
    } else {
        seq![SegView::Plain(buf)]
    }
}

/// The segments the scanner emits for `s`, from position `i`, with the
/// plain text `buf` already accumulated.
///
/// `$$` opens a block span and a lone `$` an inline span; `\$$` and `\$`
/// contribute a literal `$$` or `$` to the plain text; a span whose
/// closing delimiter never comes degrades to plain text.
pub open spec fn spec_segments(s: Seq<char>, i: int, buf: Seq<char>) -> Seq<SegView>
    decreases s.len() - i,
    when 0 <= i <= s.len()
    via spec_segments_decreases
{
    if i >= s.len() {
        flush(buf)
    } else if i + 2 <= s.len() && s[i] == '$' && s[i + 1] == '$' {
        match find_close(seq!['$', '$'], s, i + 2) {
            Some(j) => flush(buf) + seq![SegView::BlockMath(s.subrange(i + 2, j))]
                + spec_segments(s, j + 2, Seq::empty()),
            None => flush(buf + s.skip(i)),
        }
    } else if s[i] == '$' {
        match find_close(seq!['$'], s, i + 1) {
            Some(j) => flush(buf) + seq![SegView::InlineMath(s.subrange(i + 1, j))]
                + spec_segments(s, j + 1, Seq::empty()),
            None => flush(buf + s.skip(i)),
        }
    } else if i + 3 <= s.len() && s[i] == '\\' && s[i + 1] == '$' && s[i + 2] == '$' {
        spec_segments(s, i + 3, buf + seq!['$', '$'])
    } else if i + 2 <= s.len() && s[i] == '\\' && s[i + 1] == '$' {
        spec_segments(s, i + 2, buf + seq!['$'])
    } else {
        spec_segments(s, i + 1, buf.push(s[i]))
    }
}

#[via_fn]
proof fn spec_segments_decreases(s: Seq<char>, i: int, buf: Seq<char>) {
    if 0 <= i < s.len() {
        if i + 2 <= s.len() && s[i] == '$' && s[i + 1] == '$' {
            if find_close(seq!['$', '$'], s, i + 2) is Some {
                lemma_find_close_bounds(seq!['$', '$'], s, i + 2);
            }
        } else if s[i] == '$' {
            if find_close(seq!['$'], s, i + 1) is Some {
                lemma_find_close_bounds(seq!['$'], s, i + 1);
            }
        }
    }
}

/// The views of a list of scanned segments.
pub open spec fn views_of(bs: Seq<Block>) -> Seq<SegView> {
    bs.map_values(|b: Block| b@)
}

/// Scan text for inline and block math spans delimited by `$` and `$$`.
///
/// The result is the segment list that `spec_segments` describes: plain
/// runs are merged, math segments hold their exact source substring with
/// the delimiters stripped, and an unterminated span is kept as plain
/// text.
pub fn find_katex(s: &str) -> (r: Vec<Block>)
    ensures
        views_of(r@) == spec_segments(s@, 0, Seq::empty()),
{
    let cs = str_chars(s);
    let n = cs.len();
    let block_delim: Vec<char> = vec!['$', '$'];
    let inline_delim: Vec<char> = vec!['$'];
    let mut tokens: Vec<Block> = Vec::new();
    let mut buf: Vec<char> = Vec::new();
    let mut i: usize = 0;
    proof {
        assert(block_delim@ =~~= seq!['$', '$']);
        assert(inline_delim@ =~~= seq!['$']);
    }
    loop
        invariant
            cs@ == s@,
            n == cs@.len(),
            0 <= i <= n,
            block_delim@ == seq!['$', '$'],
            inline_delim@ == seq!['$'],
            spec_segments(s@, 0, Seq::empty()) == views_of(tokens@) + spec_segments(
                s@,
                i as int,
                buf@,
            ),
        ensures
            i == n,
            cs@ == s@,
            n == cs@.len(),
            spec_segments(s@, 0, Seq::empty()) == views_of(tokens@) + spec_segments(
                s@,
                i as int,
                buf@,
            ),
        decreases n - i,
    {
        if i >= n {
            break ;
        }
        let ghost pre_tokens = tokens@;
        let ghost pre_buf = buf@;
        if n - i >= 2 && cs[i] == '$' && cs[i + 1] == '$' {
            match find_end_of_block(&block_delim, &cs, i + 2) {
                Some(j) => {
                    proof {
                        lemma_find_close_bounds(seq!['$', '$'], s@, i + 2);
                    }
                    if !buf.is_empty() {
                        tokens.push(Block::Plain(chars_to_string(&buf)));
                    }
                    buf = Vec::new();
                    tokens.push(Block::BlockMath(string_range(&cs, i + 2, j)));
                    proof {
                        assert(views_of(tokens@) =~~= views_of(pre_tokens) + flush(pre_buf)
                            + seq![SegView::BlockMath(s@.subrange(i + 2, j as int))]);
                        assert(views_of(tokens@) + spec_segments(s@, j + 2, Seq::empty())
                            =~~= views_of(pre_tokens) + spec_segments(s@, i as int, pre_buf));
                    }
                    i = j + 2;
                },
                None => {
                    let mut rest = char_range(&cs, i, n);
                    let mut whole = buf;
                    whole.append(&mut rest);
                    proof {
                        assert(whole@ == pre_buf + s@.skip(i as int));
                        assert(whole@.len() > 0);
                    }
                    tokens.push(Block::Plain(chars_to_string(&whole)));
                    proof {
                        assert(views_of(tokens@) =~~= views_of(pre_tokens) + flush(
                            pre_buf + s@.skip(i as int),
                        ));
                        assert(views_of(tokens@) =~~= spec_segments(s@, 0, Seq::empty()));
                    }
                    return tokens;
                },
            }
        } else if cs[i] == '$' {
            match find_end_of_block(&inline_delim, &cs, i + 1) {
                Some(j) => {
                    proof {
                        lemma_find_close_bounds(seq!['$'], s@, i + 1);
                    }
                    if !buf.is_empty() {
                        tokens.push(Block::Plain(chars_to_string(&buf)));
                    }
                    buf = Vec::new();
                    tokens.push(Block::InlineMath(string_range(&cs, i + 1, j)));
                    proof {
                        assert(views_of(tokens@) =~~= views_of(pre_tokens) + flush(pre_buf)
                            + seq![SegView::InlineMath(s@.subrange(i + 1, j as int))]);
                        assert(views_of(tokens@) + spec_segments(s@, j + 1, Seq::empty())
                            =~~= views_of(pre_tokens) + spec_segments(s@, i as int, pre_buf));
                    }
                    i = j + 1;
                },
                None => {
                    let mut rest = char_range(&cs, i, n);
                    let mut whole = buf;
                    whole.append(&mut rest);
                    proof {
                        assert(whole@ == pre_buf + s@.skip(i as int));
                        assert(whole@.len() > 0);
                    }
                    tokens.push(Block::Plain(chars_to_string(&whole)));
                    proof {
                        assert(views_of(tokens@) =~~= views_of(pre_tokens) + flush(
                            pre_buf + s@.skip(i as int),
                        ));
                        assert(views_of(tokens@) =~~= spec_segments(s@, 0, Seq::empty()));
                    }
                    return tokens;
                },
            }
        } else if n - i >= 3 && cs[i] == '\\' && cs[i + 1] == '$' && cs[i + 2] == '$' {
            buf.push('$');
            buf.push('$');
            proof {
                assert(buf@ =~~= pre_buf + seq!['$', '$']);
            }
            i = i + 3;
        } else if n - i >= 2 && cs[i] == '\\' && cs[i + 1] == '$' {
            buf.push('$');
            proof {
                assert(buf@ =~~= pre_buf + seq!['$']);
            }
            i = i + 2;
        } else {
            buf.push(cs[i]);
            i = i + 1;
        }
    }
    let ghost end_tokens = tokens@;
    let ghost end_buf = buf@;
    if !buf.is_empty() {
        tokens.push(Block::Plain(chars_to_string(&buf)));
        proof {
            assert(views_of(tokens@) =~~= views_of(end_tokens) + flush(end_buf));
        }
    }
    proof {
        assert(spec_segments(s@, i as int, end_buf) == flush(end_buf));
        assert(views_of(tokens@) =~~= views_of(end_tokens) + flush(end_buf));
        assert(views_of(tokens@) =~~= spec_segments(s@, 0, Seq::empty()));
    }
    tokens
}

/// The source text of a single segment is that segment's own source.
pub proof fn lemma_segs_source_single(g: SegView)
    ensures
        segs_source(seq![g]) == seg_source(g),
{
    assert(seq![g].drop_first() =~~= Seq::<SegView>::empty());
    assert(segs_source(Seq::<SegView>::empty()) =~~= Seq::<char>::empty());
    assert(segs_source(seq![g]) =~~= seg_source(g));
}

/// The source text of a flushed plain run is the run itself.
pub proof fn lemma_flush_source(buf: Seq<char>)
    ensures
        segs_source(flush(buf)) == buf,
{
    if buf.len() == 0 {
        assert(segs_source(flush(buf)) =~~= buf);
    } else {
        lemma_segs_source_single(SegView::Plain(buf));
        assert(segs_source(flush(buf)) =~~= buf);
    }
}

/// Concatenating segment lists concatenates their source texts.
pub proof fn lemma_segs_source_concat(a: Seq<SegView>, b: Seq<SegView>)
    ensures
        segs_source(a + b) == segs_source(a) + segs_source(b),
    decreases a.len(),
{
    if a.len() == 0 {
        assert(a + b =~~= b);
        assert(segs_source(a) + segs_source(b) =~~= segs_source(b));
    } else {
        lemma_segs_source_concat(a.drop_first(), b);
        assert((a + b).drop_first() =~~= a.drop_first() + b);
        assert(seg_source((a + b)[0]) + (segs_source(a.drop_first()) + segs_source(b)) =~~= (
        seg_source(a[0]) + segs_source(a.drop_first())) + segs_source(b));
    }
}

/// True when the scan of `s` from position `i` never consumes a `\$` or
/// `\$$` escape while in plain text. Escapes inside an open math span do
/// not count: there a backslash is literal content.
pub open spec fn plain_escape_free(s: Seq<char>, i: int) -> bool
    decreases s.len() - i,
    when 0 <= i <= s.len()
    via plain_escape_free_decreases
{
    if i >= s.len() {
        true
    } else if i + 2 <= s.len() && s[i] == '$' && s[i + 1] == '$' {
        match find_close(seq!['$', '$'], s, i + 2) {
            Some(j) => plain_escape_free(s, j + 2),
            None => true,
        }
    } else if s[i] == '$' {
        match find_close(seq!['$'], s, i + 1) {
            Some(j) => plain_escape_free(s, j + 1),
            None => true,
        }
    } else if i + 2 <= s.len() && s[i] == '\\' && s[i + 1] == '$' {
        false
    } else {
        plain_escape_free(s, i + 1)
    }
}

#[via_fn]
proof fn plain_escape_free_decreases(s: Seq<char>, i: int) {
    if 0 <= i < s.len() {
        if i + 2 <= s.len() && s[i] == '$' && s[i + 1] == '$' {
            if find_close(seq!['$', '$'], s, i + 2) is Some {
                lemma_find_close_bounds(seq!['$', '$'], s, i + 2);
            }
        } else if s[i] == '$' {
            if find_close(seq!['$'], s, i + 1) is Some {
                lemma_find_close_bounds(seq!['$'], s, i + 1);
            }
        }
    }
}

proof fn lemma_scan_source(s: Seq<char>, i: int, buf: Seq<char>)
    requires
        0 <= i <= s.len(),
        plain_escape_free(s, i),
    ensures
        segs_source(spec_segments(s, i, buf)) == buf + s.skip(i),
    decreases s.len() - i,
{
    if i >= s.len() {
        lemma_flush_source(buf);
        assert(buf =~~= buf + s.skip(i));
    } else if i + 2 <= s.len() && s[i] == '$' && s[i + 1] == '$' {
        match find_close(seq!['$', '$'], s, i + 2) {
            Some(j) => {
                lemma_find_close_bounds(seq!['$', '$'], s, i + 2);
                assert(seq!['$', '$'].len() == 2);
                assert(s.subrange(j, j + 2) == seq!['$', '$']);
                assert(s[j] == '$' && s[j + 1] == '$') by {
                    assert(s.subrange(j, j + 2)[0] == '$');
                    assert(s.subrange(j, j + 2)[1] == '$');
                }
                lemma_scan_source(s, j + 2, Seq::empty());
                let mid = seq![SegView::BlockMath(s.subrange(i + 2, j))];
                let rest = spec_segments(s, j + 2, Seq::empty());
                lemma_segs_source_concat(flush(buf) + mid, rest);
                lemma_segs_source_concat(flush(buf), mid);
                lemma_flush_source(buf);
                lemma_segs_source_single(SegView::BlockMath(s.subrange(i + 2, j)));
                assert(segs_source(spec_segments(s, i, buf)) =~~= segs_source(flush(buf))
                    + segs_source(mid) + segs_source(rest));
                assert(buf + (seq!['$', '$'] + s.subrange(i + 2, j) + seq!['$', '$']) + (Seq::<
                    char,
                >::empty() + s.skip(j + 2)) =~~= buf + s.skip(i));
            },
            None => {
                lemma_flush_source(buf + s.skip(i));
            },
        }
    } else if s[i] == '$' {
        match find_close(seq!['$'], s, i + 1) {
            Some(j) => {
                lemma_find_close_bounds(seq!['$'], s, i + 1);
                assert(seq!['$'].len() == 1);
                assert(s.subrange(j, j + 1) == seq!['$']);
                assert(s[j] == '$') by {
                    assert(s.subrange(j, j + 1)[0] == '$');
                }
                lemma_scan_source(s, j + 1, Seq::empty());
                let mid = seq![SegView::InlineMath(s.subrange(i + 1, j))];
                let rest = spec_segments(s, j + 1, Seq::empty());
                lemma_segs_source_concat(flush(buf) + mid, rest);
                lemma_segs_source_concat(flush(buf), mid);
                lemma_flush_source(buf);
                lemma_segs_source_single(SegView::InlineMath(s.subrange(i + 1, j)));
                assert(segs_source(spec_segments(s, i, buf)) =~~= segs_source(flush(buf))
                    + segs_source(mid) + segs_source(rest));
                assert(buf + (seq!['$'] + s.subrange(i + 1, j) + seq!['$']) + (Seq::<
                    char,
                >::empty() + s.skip(j + 1)) =~~= buf + s.skip(i));
            },
            None => {
                lemma_flush_source(buf + s.skip(i));
            },
        }
    } else if i + 3 <= s.len() && s[i] == '\\' && s[i + 1] == '$' && s[i + 2] == '$' {
        assert(false);
    } else if i + 2 <= s.len() && s[i] == '\\' && s[i + 1] == '$' {
        assert(false);
    } else {
        lemma_scan_source(s, i + 1, buf.push(s[i]));
        assert(buf.push(s[i]) + s.skip(i + 1) =~~= buf + s.skip(i));
    }
}

/// Round trip: for an input in which no `\$` or `\$$` escape is consumed
/// in plain text, concatenating the scanner's output segments, with the
/// delimiters reinstated around math segments, reproduces the input
/// exactly. An input whose plain text holds such an escape comes back
/// with the backslash dropped, so it is left out here.
pub proof fn lemma_tokenizer_round_trip(s: Seq<char>)
    requires
        plain_escape_free(s, 0),
    ensures
        segs_source(spec_segments(s, 0, Seq::empty())) == s,
{
    lemma_scan_source(s, 0, Seq::empty());
    assert(Seq::<char>::empty() + s.skip(0) =~~= s);
}

/// Search an open span for its closing delimiter.
///
/// Scans `text` from position `from`; a backslash is kept as literal
/// content together with the next `end_delim.len()` characters, even where
/// they would otherwise close the span. Returns the position where the
/// closing delimiter starts, or `None` when the text ends first.
pub fn find_end_of_block(end_delim: &Vec<char>, text: &Vec<char>, from: usize) -> (r: Option<
    usize,
>)
    requires
        from <= text@.len(),
        1 <= end_delim@.len(),
    ensures
        match r {
            Some(j) => find_close(end_delim@, text@, from as int) == Some(j as int),
            None => find_close(end_delim@, text@, from as int) is None,
        },
{
    let dl = end_delim.len();
    let n = text.len();
    let mut i = from;
    while i < n
        invariant
            from <= i,
            i <= n == text@.len(),
            dl == end_delim@.len() >= 1,
            find_close(end_delim@, text@, from as int) == find_close(end_delim@, text@, i as int),
        decreases n - i,
    {
        if text[i] == '\\' {
            if dl <= n - i - 1 {
                i = i + 1 + dl;
            } else {
                return None;
            }
        } else if dl <= n - i && delim_matches(end_delim, text, i) {
            return Some(i);
        } else {
            i = i + 1;
        }
    }
    None
}

/// True exactly when `text[at .. at + delim.len()]` is `delim`.
fn delim_matches(delim: &Vec<char>, text: &Vec<char>, at: usize) -> (r: bool)
    requires
        at + delim@.len() <= text@.len(),
    ensures
        r == (text@.subrange(at as int, at + delim@.len()) == delim@),
{
    let dl = delim.len();
    let n = text.len();
    let mut j: usize = 0;
    while j < dl
        invariant
            0 <= j <= dl == delim@.len(),
            at + dl <= n == text@.len(),
            forall|k: int| 0 <= k < j ==> text@[at + k] == delim@[k],
        decreases dl - j,
    {
        if text[at + j] != delim[j] {
            proof {
                assert(text@.subrange(at as int, at + delim@.len())[j as int] != delim@[j as int]);
            }
            return false;
        }
        j = j + 1;
    }
    proof {
        assert(text@.subrange(at as int, at + delim@.len()) =~~= delim@);
    }
    true
}

/// True when plain runs are fully merged: no plain segment is empty and
/// no two plain segments stand next to each other.
pub open spec fn spec_plains_merged(gs: Seq<SegView>) -> bool {
    &&& (forall|i: int| 0 <= i < gs.len() ==> (#[trigger] gs[i] is Plain ==> gs[i]->Plain_0.len() > 0))
    &&& (forall|i: int| 0 <= i && i + 1 < gs.len() ==> !(#[trigger] gs[i] is Plain && gs[i + 1] is Plain))
}

proof fn lemma_scan_plains_merged(s: Seq<char>, i: int, buf: Seq<char>)
    requires
        0 <= i <= s.len(),
    ensures
        spec_plains_merged(spec_segments(s, i, buf)),
    decreases s.len() - i,
{
    if i >= s.len() {
    } else if i + 2 <= s.len() && s[i] == '$' && s[i + 1] == '$' {
        match find_close(seq!['$', '$'], s, i + 2) {
            Some(j) => {
                lemma_find_close_bounds(seq!['$', '$'], s, i + 2);
                lemma_scan_plains_merged(s, j + 2, Seq::empty());
                let gs = spec_segments(s, i, buf);
                let rest = spec_segments(s, j + 2, Seq::empty());
                let head = flush(buf) + seq![SegView::BlockMath(s.subrange(i + 2, j))];
                assert(gs =~~= head + rest);
                assert forall|q: int| 0 <= q < gs.len() implies (#[trigger] gs[q] is Plain
                    ==> gs[q]->Plain_0.len() > 0) by {
                    if q >= head.len() {
                        assert(gs[q] == rest[q - head.len()]);
                    }
                }
                assert forall|q: int| 0 <= q && q + 1 < gs.len() implies !(#[trigger] gs[q]
                    is Plain && gs[q + 1] is Plain) by {
                    if q + 1 < head.len() {
                        assert(gs[q + 1] == head[q + 1]);
                        assert(!(head[head.len() - 1] is Plain));
                    } else if q + 1 == head.len() {
                        assert(gs[q] == head[head.len() - 1]);
                    } else {
                        assert(gs[q] == rest[q - head.len()]);
                        assert(gs[q + 1] == rest[q + 1 - head.len()]);
                    }
                }
            },
            None => {},
        }
    } else if s[i] == '$' {
        match find_close(seq!['$'], s, i + 1) {
            Some(j) => {
                lemma_find_close_bounds(seq!['$'], s, i + 1);
                lemma_scan_plains_merged(s, j + 1, Seq::empty());
                let gs = spec_segments(s, i, buf);
                let rest = spec_segments(s, j + 1, Seq::empty());
                let head = flush(buf) + seq![SegView::InlineMath(s.subrange(i + 1, j))];
                assert(gs =~~= head + rest);
                assert forall|q: int| 0 <= q < gs.len() implies (#[trigger] gs[q] is Plain
                    ==> gs[q]->Plain_0.len() > 0) by {
                    if q >= head.len() {
                        assert(gs[q] == rest[q - head.len()]);
                    }
                }
                assert forall|q: int| 0 <= q && q + 1 < gs.len() implies !(#[trigger] gs[q]
                    is Plain && gs[q + 1] is Plain) by {
                    if q + 1 < head.len() {
                        assert(gs[q + 1] == head[q + 1]);
                        assert(!(head[head.len() - 1] is Plain));
                    } else if q + 1 == head.len() {
                        assert(gs[q] == head[head.len() - 1]);
                    } else {
                        assert(gs[q] == rest[q - head.len()]);
                        assert(gs[q + 1] == rest[q + 1 - head.len()]);
                    }
                }
            },
            None => {},
        }
    } else if i + 3 <= s.len() && s[i] == '\\' && s[i + 1] == '$' && s[i + 2] == '$' {
        lemma_scan_plains_merged(s, i + 3, buf + seq!['$', '$']);
    } else if i + 2 <= s.len() && s[i] == '\\' && s[i + 1] == '$' {
        lemma_scan_plains_merged(s, i + 2, buf + seq!['$']);
    } else {
        lemma_scan_plains_merged(s, i + 1, buf.push(s[i]));
    }
}

/// The scanner merges plain runs: its output never holds an empty plain
/// segment, nor two plain segments next to each other.
pub proof fn lemma_tokenizer_merges_plains(s: Seq<char>)
    ensures
        spec_plains_merged(spec_segments(s, 0, Seq::empty())),
{
    lemma_scan_plains_merged(s, 0, Seq::empty());
}

} // verus!
