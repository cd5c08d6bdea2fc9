//! The toolchain rewriter: a line-oriented pattern match over raw bytes that
//! replaces the quoted value of every `channel = "..."` line with a new
//! channel string and leaves every other byte of the file unchanged.
use vstd::prelude::*;

verus! {

pub const NL: u8 = 10;

pub const QUOTE: u8 = 34;

pub const SPACE: u8 = 32;

pub const EQUALS: u8 = 61;

/// The bytes of the key `channel`.
pub open spec fn channel_key() -> Seq<u8> {
    seq![99u8, 104u8, 97u8, 110u8, 110u8, 101u8, 108u8]
}

/// The first position at or after `i` holding byte `b`, or the length when
/// there is none.
pub open spec fn find_from(c: Seq<u8>, i: int, b: u8) -> int
    decreases c.len() - i,
{
    if i < 0 || i >= c.len() {
        c.len() as int
    } else if c[i] == b {
        i
    } else {
        find_from(c, i + 1, b)
    }
}

pub proof fn lemma_find_from(c: Seq<u8>, i: int, b: u8)
    requires
        0 <= i <= c.len(),
    ensures
        i <= find_from(c, i, b) <= c.len(),
        forall|j: int| i <= j < find_from(c, i, b) ==> c[j] != b,
        find_from(c, i, b) < c.len() ==> c[find_from(c, i, b)] == b,
    decreases c.len() - i,
{
    if i < c.len() && c[i] != b {
        lemma_find_from(c, i + 1, b);
    }
}

/// `find_from` is pinned down by what characterizes it.
pub proof fn lemma_find_from_is(c: Seq<u8>, i: int, b: u8, x: int)
    requires
        0 <= i <= x <= c.len(),
        forall|j: int| i <= j < x ==> c[j] != b,
        x < c.len() ==> c[x] == b,
    ensures
        find_from(c, i, b) == x,
{
    lemma_find_from(c, i, b);
    let r = find_from(c, i, b);
    if r < x {
        assert(c[r] == b);
        assert(c[r] != b);
    }
    if r > x {
        assert(x < c.len());
        assert(c[x] != b);
    }
}

/// The first position at or after `i` holding something other than a space,
/// or the length when the rest is all spaces.
pub open spec fn skip_spaces(c: Seq<u8>, i: int) -> int
    decreases c.len() - i,
{
    if i < 0 || i >= c.len() {
        c.len() as int
    } else if c[i] == SPACE {
        skip_spaces(c, i + 1)
    } else {
        i
    }
}

pub proof fn lemma_skip_spaces(c: Seq<u8>, i: int)
    requires
        0 <= i <= c.len(),
    ensures
        i <= skip_spaces(c, i) <= c.len(),
        forall|j: int| i <= j < skip_spaces(c, i) ==> c[j] == SPACE,
        skip_spaces(c, i) < c.len() ==> c[skip_spaces(c, i)] != SPACE,
    decreases c.len() - i,
{
    if i < c.len() && c[i] == SPACE {
        lemma_skip_spaces(c, i + 1);
    }
}

pub proof fn lemma_skip_spaces_is(c: Seq<u8>, i: int, x: int)
    requires
        0 <= i <= x <= c.len(),
        forall|j: int| i <= j < x ==> c[j] == SPACE,
        x < c.len() ==> c[x] != SPACE,
    ensures
        skip_spaces(c, i) == x,
{
    lemma_skip_spaces(c, i);
    let r = skip_spaces(c, i);
    if r < x {
        assert(c[r] == SPACE);
        assert(c[r] != SPACE);
    }
    if r > x {
        assert(x < c.len());
        assert(c[x] == SPACE);
    }
}

/// The position of the last double quote of a line, or -1 when it has none.
pub open spec fn last_quote(l: Seq<u8>) -> int
    decreases l.len(),
{
    if l.len() == 0 {
        -1
    } else if l[l.len() - 1] == QUOTE {
        l.len() - 1
    } else {
        last_quote(l.drop_last())
    }
}

pub proof fn lemma_last_quote(l: Seq<u8>)
    ensures
        -1 <= last_quote(l) < l.len(),
        last_quote(l) >= 0 ==> l[last_quote(l)] == QUOTE,
        forall|j: int| last_quote(l) < j < l.len() ==> l[j] != QUOTE,
    decreases l.len(),
{
    if l.len() > 0 && l[l.len() - 1] != QUOTE {
        lemma_last_quote(l.drop_last());
        assert forall|j: int| last_quote(l) < j < l.len() implies l[j] != QUOTE by {
            if j < l.len() - 1 {
                assert(l.drop_last()[j] != QUOTE);
                assert(l.drop_last()[j] == l[j]);
            }
        }
    }
}

pub proof fn lemma_last_quote_is(l: Seq<u8>, x: int)
    requires
        -1 <= x < l.len(),
        x >= 0 ==> l[x] == QUOTE,
        forall|j: int| x < j < l.len() ==> l[j] != QUOTE,
    ensures
        last_quote(l) == x,
{
    lemma_last_quote(l);
    let r = last_quote(l);
    if r < x {
        assert(l[x] != QUOTE);
    }
    if r > x {
        assert(l[r] != QUOTE);
    }
}

/// Where the quoted value of a matching line opens: the line must begin with
/// optional spaces, the key `channel`, optional spaces, `=`, optional spaces
/// and a double quote, whose position this is; -1 when the line has no such
/// shape.
pub open spec fn open_quote(l: Seq<u8>) -> int {
    let a = skip_spaces(l, 0);
    if a + 7 <= l.len() && l.subrange(a, a + 7) == channel_key() {
        let b = skip_spaces(l, a + 7);
        if b < l.len() && l[b] == EQUALS {
            let q = skip_spaces(l, b + 1);
            if q < l.len() && l[q] == QUOTE {
                q
            } else {
                -1
            }
        } else {
            -1
        }
    } else {
        -1
    }
}

/// A line is rewritten when it has the channel shape and its quoted value
/// closes: a later quote exists on the line.
pub open spec fn line_matches(l: Seq<u8>) -> bool {
    open_quote(l) >= 0 && last_quote(l) > open_quote(l)
}

/// One rewritten line: everything up to and including the opening quote, the
/// new channel, the closing quote, and everything after the old closing
/// quote; a line that does not match is left as it is.
pub open spec fn rewrite_line(l: Seq<u8>, ch: Seq<u8>) -> Seq<u8> {
    if line_matches(l) {
        l.take(open_quote(l) + 1) + ch + seq![QUOTE] + l.skip(last_quote(l) + 1)
    } else {
        l
    }
}

/// The lines of a byte string, split at every newline: one more line than
/// there are newlines, so a trailing newline yields a final empty line.
pub open spec fn split_lines(c: Seq<u8>) -> Seq<Seq<u8>>
    decreases c.len(),
{
    let k = find_from(c, 0, NL);
    if 0 <= k < c.len() {
        seq![c.take(k)] + split_lines(c.skip(k + 1))
    } else {
        seq![c]
    }
}

/// The inverse of `split_lines`: the lines joined by single newlines.
pub open spec fn join_lines(ls: Seq<Seq<u8>>) -> Seq<u8>
    decreases ls.len(),
{
    if ls.len() == 0 {
        Seq::empty()
    } else if ls.len() == 1 {
        ls[0]
    } else {
        ls[0] + seq![NL] + join_lines(ls.skip(1))
    }
}

/// Every line, rewritten.
pub open spec fn rewrite_lines(ls: Seq<Seq<u8>>, ch: Seq<u8>) -> Seq<Seq<u8>> {
    ls.map_values(|l: Seq<u8>| rewrite_line(l, ch))
}

/// The whole rewritten file: every line that matches the channel pattern gets
/// the new channel as its quoted value, every other byte stays.
pub open spec fn rewrite_content(c: Seq<u8>, ch: Seq<u8>) -> Seq<u8> {
    join_lines(rewrite_lines(split_lines(c), ch))
}

/// `b` occurs nowhere in `s`.
pub open spec fn free_of(s: Seq<u8>, b: u8) -> bool {
    forall|j: int| 0 <= j < s.len() ==> s[j] != b
}

/// Splitting yields at least one line and no line holds a newline.
pub proof fn lemma_split_lines_shape(c: Seq<u8>)
    ensures
        split_lines(c).len() >= 1,
        forall|k: int| 0 <= k < split_lines(c).len() ==> free_of(#[trigger] split_lines(c)[k], NL),
    decreases c.len(),
{
    lemma_find_from(c, 0, NL);
    let k = find_from(c, 0, NL);
    if 0 <= k < c.len() {
        lemma_split_lines_shape(c.skip(k + 1));
        assert(free_of(c.take(k), NL));
        assert(forall|m: int|
            0 <= m < split_lines(c.skip(k + 1)).len() ==> split_lines(c)[m + 1]
                == #[trigger] split_lines(c.skip(k + 1))[m]);
    } else {
        assert(free_of(c, NL));
    }
}

/// Joining the split of a byte string gives the byte string back.
pub proof fn lemma_join_split(c: Seq<u8>)
    ensures
        join_lines(split_lines(c)) == c,
    decreases c.len(),
{
    lemma_find_from(c, 0, NL);
    let k = find_from(c, 0, NL);
    if 0 <= k < c.len() {
        lemma_join_split(c.skip(k + 1));
        lemma_split_lines_shape(c.skip(k + 1));
        let ls = seq![c.take(k)] + split_lines(c.skip(k + 1));
        assert(ls.skip(1) =~= split_lines(c.skip(k + 1)));
        assert(join_lines(ls) == c.take(k) + seq![NL] + join_lines(split_lines(c.skip(k + 1))));
        assert(c.take(k) + seq![NL] + c.skip(k + 1) =~= c);
    }
}

/// Splitting the join of newline-free lines gives the lines back.
pub proof fn lemma_split_join(ls: Seq<Seq<u8>>)
    requires
        ls.len() >= 1,
        forall|k: int| 0 <= k < ls.len() ==> free_of(#[trigger] ls[k], NL),
    ensures
        split_lines(join_lines(ls)) == ls,
    decreases ls.len(),
{
    if ls.len() == 1 {
        lemma_find_from_is(ls[0], 0, NL, ls[0].len() as int);
        assert(split_lines(join_lines(ls)) =~= ls);
    } else {
        let c = join_lines(ls);
        let head = ls[0];
        let rest = join_lines(ls.skip(1));
        assert(c == head + seq![NL] + rest);
        assert forall|j: int| 0 <= j < head.len() implies c[j] != NL by {
            assert(c[j] == head[j]);
        }
        assert(c[head.len() as int] == NL);
        lemma_find_from_is(c, 0, NL, head.len() as int);
        assert(c.take(head.len() as int) =~= head);
        assert(c.skip(head.len() as int + 1) =~= rest);
        assert(forall|k: int|
            0 <= k < ls.skip(1).len() ==> #[trigger] ls.skip(1)[k] == ls[k + 1]);
        lemma_split_join(ls.skip(1));
        assert(split_lines(c) == seq![head] + ls.skip(1));
        assert(seq![head] + ls.skip(1) =~= ls);
    }
}

/// No byte of the new channel and no byte outside the replaced value region
/// introduces a newline, so a rewritten line is still one line.
pub proof fn lemma_rewrite_line_free_of_nl(l: Seq<u8>, ch: Seq<u8>)
    requires
        free_of(l, NL),
        free_of(ch, NL),
    ensures
        free_of(rewrite_line(l, ch), NL),
{
    if line_matches(l) {
        lemma_last_quote(l);
        assert forall|j: int| 0 <= j < rewrite_line(l, ch).len() implies rewrite_line(l, ch)[j]
            != NL by {
            let q = open_quote(l);
            let lq = last_quote(l);
            let r = rewrite_line(l, ch);
            if j <= q {
                assert(r[j] == l[j]);
            } else if j < q + 1 + ch.len() {
                assert(r[j] == ch[j - q - 1]);
            } else if j == q + 1 + ch.len() {
                assert(r[j] == QUOTE);
            } else {
                assert(r[j] == l[lq + 1 + (j - (q + 2 + ch.len()))]);
            }
        }
    }
}

/// Content preservation: a rewrite changes no line count, leaves every line
/// without the channel shape byte-for-byte unchanged, and on every matching
/// line keeps everything but the quoted value, which becomes the new channel.
pub proof fn lemma_rewrite_content_lines(c: Seq<u8>, ch: Seq<u8>)
    requires
        free_of(ch, NL),
    ensures
        split_lines(rewrite_content(c, ch)).len() == split_lines(c).len(),
        forall|k: int|
            0 <= k < split_lines(c).len() ==> split_lines(rewrite_content(c, ch))[k]
                == rewrite_line(#[trigger] split_lines(c)[k], ch),
        forall|k: int|
            0 <= k < split_lines(c).len() && !line_matches(#[trigger] split_lines(c)[k])
                ==> split_lines(rewrite_content(c, ch))[k] == split_lines(c)[k],
{
    let ls = split_lines(c);
    let rs = rewrite_lines(ls, ch);
    lemma_split_lines_shape(c);
    assert forall|k: int| 0 <= k < rs.len() implies free_of(#[trigger] rs[k], NL) by {
        lemma_rewrite_line_free_of_nl(ls[k], ch);
    }
    lemma_split_join(rs);
}

/// Everything the second parse of a rewritten matching line needs: the line
/// still matches, with the same shape up to the opening quote, and its last
/// quote is the one the rewrite wrote.
proof fn lemma_rewrite_line_shape(l: Seq<u8>, ch: Seq<u8>)
    requires
        line_matches(l),
    ensures
        line_matches(rewrite_line(l, ch)),
        open_quote(rewrite_line(l, ch)) == open_quote(l),
        last_quote(rewrite_line(l, ch)) == open_quote(l) + 1 + ch.len(),
{
    let a = skip_spaces(l, 0);
    let b = skip_spaces(l, a + 7);
    let q = open_quote(l);
    let lq = last_quote(l);
    let r = rewrite_line(l, ch);
    lemma_skip_spaces(l, 0);
    lemma_last_quote(l);
    assert(a + 7 <= l.len() && l.subrange(a, a + 7) == channel_key());
    assert(l[a] == 99u8) by {
        assert(l.subrange(a, a + 7)[0] == l[a]);
    }
    assert(a < q) by {
        if a >= q {
            assert(l[q] == QUOTE);
            assert(q <= a);
            if q == a {
                assert(l[a] == 99u8);
            } else {
                lemma_skip_spaces(l, 0);
                assert(l[q] == SPACE);
            }
        }
    }
    lemma_skip_spaces(l, a + 7);
    assert(b < l.len() && l[b] == EQUALS);
    assert(a + 7 <= b);
    lemma_skip_spaces(l, b + 1);
    assert(q == skip_spaces(l, b + 1));
    assert(b < q);
    assert(q < lq);
    // The rewritten line agrees with `l` on every byte up to the opening
    // quote, so the parse of the prefix is the same.
    assert(r.len() == q + 2 + ch.len() + (l.len() - lq - 1));
    assert forall|j: int| 0 <= j <= q implies r[j] == l[j] by {
        assert(r[j] == l.take(q + 1)[j]);
    }
    lemma_skip_spaces_is(r, 0, a);
    assert(r.subrange(a, a + 7) =~= l.subrange(a, a + 7));
    lemma_skip_spaces_is(r, a + 7, b);
    lemma_skip_spaces_is(r, b + 1, q);
    assert(open_quote(r) == q);
    // The last quote of the rewritten line is the closing quote the rewrite
    // wrote: everything after it came from after the old last quote.
    assert(r[q + 1 + ch.len()] == QUOTE);
    assert forall|j: int| q + 1 + ch.len() < j < r.len() implies r[j] != QUOTE by {
        assert(r[j] == l[lq + 1 + (j - (q + 2 + ch.len()))]);
    }
    lemma_last_quote_is(r, q + 1 + ch.len());
}

/// Rewriting one line twice with one channel is rewriting it once.
pub proof fn lemma_rewrite_line_idempotent(l: Seq<u8>, ch: Seq<u8>)
    ensures
        rewrite_line(rewrite_line(l, ch), ch) == rewrite_line(l, ch),
{
    if line_matches(l) {
        let q = open_quote(l);
        let lq = last_quote(l);
        let r = rewrite_line(l, ch);
        lemma_rewrite_line_shape(l, ch);
        assert(rewrite_line(r, ch) == r.take(q + 1) + ch + seq![QUOTE] + r.skip(
            q + 2 + ch.len(),
        ));
        assert(r.take(q + 1) =~= l.take(q + 1));
        assert(r.skip(q + 2 + ch.len() as int) =~= l.skip(lq + 1));
        assert(rewrite_line(r, ch) =~= r);
    }
}

/// Rewrite idempotence: rewriting a file twice with one channel value leaves
/// exactly the bytes of one rewrite. A channel holding a newline is out: it
/// would split a rewritten line in two.
pub proof fn lemma_rewrite_idempotent(c: Seq<u8>, ch: Seq<u8>)
    requires
        free_of(ch, NL),
    ensures
        rewrite_content(rewrite_content(c, ch), ch) == rewrite_content(c, ch),
{
    let ls = split_lines(c);
    let rs = rewrite_lines(ls, ch);
    lemma_split_lines_shape(c);
    assert forall|k: int| 0 <= k < rs.len() implies free_of(#[trigger] rs[k], NL) by {
        lemma_rewrite_line_free_of_nl(ls[k], ch);
    }
    lemma_split_join(rs);
    assert forall|k: int| 0 <= k < rs.len() implies #[trigger] rewrite_lines(rs, ch)[k]
        == rs[k] by {
        lemma_rewrite_line_idempotent(ls[k], ch);
    }
    assert(rewrite_lines(rs, ch) =~= rs);
}

/// The view of a list of lines, one byte sequence per line.
pub open spec fn lines_view(v: Seq<Vec<u8>>) -> Seq<Seq<u8>> {
    Seq::new(v.len(), |i: int| v[i]@)
}

/// Copies the bytes of `c` between `a` and `b`.
fn copy_range(c: &Vec<u8>, a: usize, b: usize) -> (r: Vec<u8>)
    requires
        a <= b <= c@.len(),
    ensures
        r@ == c@.subrange(a as int, b as int),
{
    let mut r: Vec<u8> = Vec::new();
    let mut m: usize = a;
    while m < b
        invariant
            a <= m <= b <= c@.len(),
            r@ =~= c@.subrange(a as int, m as int),
        decreases b - m,
    {
        r.push(c[m]);
        proof {
            assert(r@ =~= c@.subrange(a as int, m as int + 1));
        }
        m = m + 1;
    }
    r
}

proof fn lemma_split_step(c: Seq<u8>, start: int, j: int)
    requires
        0 <= start <= j < c.len(),
        forall|m: int| start <= m < j ==> c[m] != NL,
        c[j] == NL,
    ensures
        split_lines(c.skip(start)) == seq![c.subrange(start, j)] + split_lines(c.skip(j + 1)),
{
    let s = c.skip(start);
    assert forall|m: int| 0 <= m < j - start implies s[m] != NL by {
        assert(s[m] == c[start + m]);
    }
    assert(s[j - start] == NL);
    lemma_find_from_is(s, 0, NL, j - start);
    assert(s.take(j - start) =~= c.subrange(start, j));
    assert(s.skip(j - start + 1) =~= c.skip(j + 1));
}

proof fn lemma_split_last(c: Seq<u8>, start: int)
    requires
        0 <= start <= c.len(),
        forall|m: int| start <= m < c.len() ==> c[m] != NL,
    ensures
        split_lines(c.skip(start)) == seq![c.subrange(start, c.len() as int)],
{
    let s = c.skip(start);
    assert forall|m: int| 0 <= m < s.len() implies s[m] != NL by {
        assert(s[m] == c[start + m]);
    }
    lemma_find_from_is(s, 0, NL, s.len() as int);
    assert(s =~= c.subrange(start, c.len() as int));
}

/// Splits a byte string into its lines.
fn split_bytes(c: &Vec<u8>) -> (out: Vec<Vec<u8>>)
    ensures
        lines_view(out@) == split_lines(c@),
{
    let mut out: Vec<Vec<u8>> = Vec::new();
    let mut start: usize = 0;
    let mut j: usize = 0;
    proof {
        assert(c@.skip(0) =~= c@);
    }
    while j < c.len()
        invariant
            0 <= start <= j <= c@.len(),
            forall|m: int| start <= m < j ==> c@[m] != NL,
            split_lines(c@) =~= lines_view(out@) + split_lines(c@.skip(start as int)),
        decreases c@.len() - j,
    {
        if c[j] == NL {
            let line = copy_range(c, start, j);
            proof {
                lemma_split_step(c@, start as int, j as int);
            }
            let ghost prev = out@;
            out.push(line);
            proof {
                assert(lines_view(out@) =~= lines_view(prev).push(line@));
                assert(lines_view(prev).push(line@) + split_lines(c@.skip(j as int + 1))
                    =~= lines_view(prev) + (seq![line@] + split_lines(c@.skip(j as int + 1))));
                assert(split_lines(c@) =~= lines_view(out@) + split_lines(
                    c@.skip(j as int + 1),
                ));
            }
            start = j + 1;
        }
        j = j + 1;
    }
    let line = copy_range(c, start, c.len());
    proof {
        lemma_split_last(c@, start as int);
    }
    let ghost prev = out@;
    out.push(line);
    proof {
        assert(lines_view(out@) =~= lines_view(prev).push(line@));
        assert(lines_view(prev).push(line@) =~= lines_view(prev) + seq![line@]);
        assert(lines_view(out@) =~= split_lines(c@));
    }
    out
}

proof fn lemma_join_snoc(ls: Seq<Seq<u8>>, x: Seq<u8>)
    requires
        ls.len() >= 1,
    ensures
        join_lines(ls.push(x)) == join_lines(ls) + seq![NL] + x,
    decreases ls.len(),
{
    if ls.len() == 1 {
        assert(ls.push(x).skip(1) =~= seq![x]);
        assert(join_lines(seq![x]) == x);
        assert(join_lines(ls.push(x)) == ls[0] + seq![NL] + x);
    } else {
        assert(ls.push(x).skip(1) =~= ls.skip(1).push(x));
        lemma_join_snoc(ls.skip(1), x);
        assert(join_lines(ls.push(x)) == ls[0] + seq![NL] + (join_lines(ls.skip(1)) + seq![NL]
            + x));
        assert(ls[0] + seq![NL] + (join_lines(ls.skip(1)) + seq![NL] + x) =~= (ls[0] + seq![NL]
            + join_lines(ls.skip(1))) + seq![NL] + x);
    }
}

/// Joins lines back into one byte string, a newline between each two.
fn join_bytes(ls: &Vec<Vec<u8>>) -> (r: Vec<u8>)
    ensures
        r@ == join_lines(lines_view(ls@)),
{
    let mut r: Vec<u8> = Vec::new();
    if ls.len() == 0 {
        return r;
    }
    let first = &ls[0];
    let mut m: usize = 0;
    while m < first.len()
        invariant
            m <= first@.len(),
            first@ == ls@[0]@,
            r@ =~= ls@[0]@.take(m as int),
        decreases first@.len() - m,
    {
        r.push(first[m]);
        proof {
            assert(r@ =~= ls@[0]@.take(m as int + 1));
        }
        m = m + 1;
    }
    proof {
        assert(lines_view(ls@).take(1) =~= seq![ls@[0]@]);
        assert(r@ =~= join_lines(lines_view(ls@).take(1)));
    }
    let mut i: usize = 1;
    while i < ls.len()
        invariant
            1 <= i <= ls@.len(),
            r@ == join_lines(lines_view(ls@).take(i as int)),
        decreases ls@.len() - i,
    {
        r.push(NL);
        let line = &ls[i];
        let mut m2: usize = 0;
        while m2 < line.len()
            invariant
                m2 <= line@.len(),
                line@ == ls@[i as int]@,
                i < ls@.len(),
                r@ =~= join_lines(lines_view(ls@).take(i as int)) + seq![NL] + ls@[
                    i as int
                ]@.take(m2 as int),
            decreases line@.len() - m2,
        {
            r.push(line[m2]);
            proof {
                assert(r@ =~= join_lines(lines_view(ls@).take(i as int)) + seq![NL] + ls@[
                    i as int
                ]@.take(m2 as int + 1));
            }
            m2 = m2 + 1;
        }
        proof {
            lemma_join_snoc(lines_view(ls@).take(i as int), ls@[i as int]@);
            assert(lines_view(ls@).take(i as int).push(ls@[i as int]@) =~= lines_view(
                ls@,
            ).take(i as int + 1));
            assert(ls@[i as int]@.take(line@.len() as int) =~= ls@[i as int]@);
        }
        i = i + 1;
    }
    proof {
        assert(lines_view(ls@).take(ls@.len() as int) =~= lines_view(ls@));
    }
    r
}

/// The first non-space position of `l` at or after `i`.
fn skip_spaces_from(l: &Vec<u8>, i: usize) -> (r: usize)
    requires
        i <= l@.len(),
    ensures
        r == skip_spaces(l@, i as int),
        i <= r <= l@.len(),
    decreases l@.len() - i,
{
    let mut r: usize = i;
    while r < l.len() && l[r] == SPACE
        invariant
            i <= r <= l@.len(),
            skip_spaces(l@, i as int) == skip_spaces(l@, r as int),
        decreases l@.len() - r,
    {
        r = r + 1;
    }
    proof {
        lemma_skip_spaces(l@, i as int);
    }
    r
}

/// Finds the opening quote of a line of the channel shape.
fn find_open_quote(l: &Vec<u8>) -> (r: Option<usize>)
    ensures
        r is Some ==> open_quote(l@) == r->Some_0 as int && r->Some_0 < l@.len(),
        r is None ==> open_quote(l@) == -1,
{
    let a = skip_spaces_from(l, 0);
    if l.len() - a < 7 {
        return None;
    }
    if !(l[a] == 99 && l[a + 1] == 104 && l[a + 2] == 97 && l[a + 3] == 110 && l[a + 4] == 110
        && l[a + 5] == 101 && l[a + 6] == 108) {
        proof {
            assert(l@.subrange(a as int, a as int + 7) != channel_key()) by {
                if l@.subrange(a as int, a as int + 7) == channel_key() {
                    assert(forall|m: int|
                        0 <= m < 7 ==> #[trigger] l@.subrange(a as int, a as int + 7)[m] == l@[
                            a + m
                        ]);
                }
            }
        }
        return None;
    }
    proof {
        assert(l@.subrange(a as int, a as int + 7) =~= channel_key());
    }
    let b = skip_spaces_from(l, a + 7);
    if b == l.len() || l[b] != EQUALS {
        return None;
    }
    let q = skip_spaces_from(l, b + 1);
    if q == l.len() || l[q] != QUOTE {
        return None;
    }
    Some(q)
}

/// Finds the last quote of a line.
fn find_last_quote(l: &Vec<u8>) -> (r: Option<usize>)
    ensures
        r is Some ==> last_quote(l@) == r->Some_0 as int && r->Some_0 < l@.len(),
        r is None ==> last_quote(l@) == -1,
{
    let mut j: usize = l.len();
    while j > 0
        invariant
            j <= l@.len(),
            forall|m: int| j <= m < l@.len() ==> l@[m] != QUOTE,
        decreases j,
    {
        j = j - 1;
        if l[j] == QUOTE {
            proof {
                lemma_last_quote_is(l@, j as int);
            }
            return Some(j);
        }
    }
    proof {
        lemma_last_quote_is(l@, -1);
    }
    None
}

/// Rewrites one line: the quoted value of a line of the channel shape becomes
/// the new channel, any other line is returned unchanged.
fn rewrite_line_bytes(l: &Vec<u8>, ch: &Vec<u8>) -> (r: Vec<u8>)
    ensures
        r@ == rewrite_line(l@, ch@),
{
    let oq = find_open_quote(l);
    match oq {
        None => {
            let r = copy_range(l, 0, l.len());
            proof {
                assert(r@ =~= l@);
            }
            r
        },
        Some(q) => {
            let lqo = find_last_quote(l);
            match lqo {
                None => {
                    let r = copy_range(l, 0, l.len());
                    proof {
                        assert(r@ =~= l@);
                    }
                    r
                },
                Some(lq) => {
                    if lq <= q {
                        let r = copy_range(l, 0, l.len());
                        proof {
                            assert(r@ =~= l@);
                        }
                        r
                    } else {
                        let mut r = copy_range(l, 0, q + 1);
                        let mut m: usize = 0;
                        while m < ch.len()
                            invariant
                                m <= ch@.len(),
                                r@ =~= l@.take(q as int + 1) + ch@.take(m as int),
                            decreases ch@.len() - m,
                        {
                            r.push(ch[m]);
                            proof {
                                assert(r@ =~= l@.take(q as int + 1) + ch@.take(m as int + 1));
                            }
                            m = m + 1;
                        }
                        r.push(QUOTE);
                        proof {
                            assert(ch@.take(ch@.len() as int) =~= ch@);
                            assert(r@ =~= l@.take(q as int + 1) + ch@ + seq![QUOTE]);
                        }
                        let n = l.len();
                        proof {
                            assert(lq < n);
                        }
                        let mut m2: usize = lq + 1;
                        while m2 < l.len()
                            invariant
                                lq + 1 <= m2 <= l@.len(),
                                q < lq < l@.len(),
                                r@ =~= l@.take(q as int + 1) + ch@ + seq![QUOTE] + l@.subrange(
                                    lq as int + 1,
                                    m2 as int,
                                ),
                            decreases l@.len() - m2,
                        {
                            r.push(l[m2]);
                            proof {
                                assert(r@ =~= l@.take(q as int + 1) + ch@ + seq![QUOTE]
                                    + l@.subrange(lq as int + 1, m2 as int + 1));
                            }
                            m2 = m2 + 1;
                        }
                        proof {
                            assert(l@.subrange(lq as int + 1, l@.len() as int) =~= l@.skip(
                                lq as int + 1,
                            ));
                            assert(line_matches(l@));
                        }
                        r
                    }
                },
            }
        },
    }
}

/// The toolchain rewriter on file content: replaces the quoted value of every
/// line of the channel shape with the new channel and returns the new file
/// bytes; a file without such a line comes back byte-identical.
pub fn rewrite_channel(content: &Vec<u8>, channel: &Vec<u8>) -> (out: Vec<u8>)
    ensures
        out@ == rewrite_content(content@, channel@),
{
    let lines = split_bytes(content);
    let mut rew: Vec<Vec<u8>> = Vec::new();
    let mut i: usize = 0;
    while i < lines.len()
        invariant
            i <= lines@.len(),
            lines_view(lines@) == split_lines(content@),
            lines_view(rew@) =~= rewrite_lines(lines_view(lines@), channel@).take(i as int),
        decreases lines@.len() - i,
    {
        let line = rewrite_line_bytes(&lines[i], channel);
        let ghost prev = rew@;
        rew.push(line);
        proof {
            assert(lines_view(rew@) =~= lines_view(prev).push(line@));
            assert(lines_view(lines@)[i as int] == lines@[i as int]@);
            assert(rewrite_lines(lines_view(lines@), channel@)[i as int] == rewrite_line(
                lines@[i as int]@,
                channel@,
            ));
            assert(lines_view(rew@) =~= rewrite_lines(lines_view(lines@), channel@).take(
                i as int + 1,
            ));
        }
        i = i + 1;
    }
    proof {
        assert(rewrite_lines(lines_view(lines@), channel@).take(lines@.len() as int)
            =~= rewrite_lines(lines_view(lines@), channel@));
    }
    join_bytes(&rew)
}

/// A file without one line of the channel shape is returned byte-identical:
/// a rewrite that finds nothing is a no-op, not an error.
pub proof fn lemma_rewrite_no_match_no_op(c: Seq<u8>, ch: Seq<u8>)
    requires
        forall|k: int| 0 <= k < split_lines(c).len() ==> !line_matches(#[trigger] split_lines(c)[k]),
    ensures
        rewrite_content(c, ch) == c,
{
    assert(rewrite_lines(split_lines(c), ch) =~= split_lines(c));
    lemma_join_split(c);
}

} // verus!
