//! Tag file codec: the canonical textual representation of a tag list and
//! its inverse. Tags are joined with the separator `". "`; a tag file is
//! read back by splitting on `'.'`, trimming whitespace from each piece and
//! dropping pieces that are empty after trimming.

use vstd::prelude::*;

verus! {

/// The separator written between two serialized tags: a period and a space.
pub open spec fn tag_separator() -> Seq<char> {
    seq!['.', ' ']
}

/// The whitespace characters that trimming removes from the ends of a tag
/// piece: the Unicode white-space set.
pub open spec fn is_ws_char(c: char) -> bool {
    c == ' ' || c == '\t' || c == '\n' || c == '\r' || c == '\u{b}' || c == '\u{c}'
        || c == '\u{85}' || c == '\u{a0}' || c == '\u{1680}' || c == '\u{2000}'
        || c == '\u{2001}' || c == '\u{2002}' || c == '\u{2003}' || c == '\u{2004}'
        || c == '\u{2005}' || c == '\u{2006}' || c == '\u{2007}' || c == '\u{2008}'
        || c == '\u{2009}' || c == '\u{200a}' || c == '\u{2028}' || c == '\u{2029}'
        || c == '\u{202f}' || c == '\u{205f}' || c == '\u{3000}'
}

fn is_ws_char_exec(c: char) -> (r: bool)
    ensures
        r == is_ws_char(c),
{
    c == ' ' || c == '\t' || c == '\n' || c == '\r' || c == '\u{b}' || c == '\u{c}'
        || c == '\u{85}' || c == '\u{a0}' || c == '\u{1680}' || c == '\u{2000}'
        || c == '\u{2001}' || c == '\u{2002}' || c == '\u{2003}' || c == '\u{2004}'
        || c == '\u{2005}' || c == '\u{2006}' || c == '\u{2007}' || c == '\u{2008}'
        || c == '\u{2009}' || c == '\u{200a}' || c == '\u{2028}' || c == '\u{2029}'
        || c == '\u{202f}' || c == '\u{205f}' || c == '\u{3000}'
}

/// The given sequence with leading whitespace characters removed.
pub open spec fn trim_start(s: Seq<char>) -> Seq<char>
    decreases s.len(),
{
    if s.len() > 0 && is_ws_char(s[0]) {
        trim_start(s.drop_first())
    } else {
        s
    }
}

/// The given sequence with trailing whitespace characters removed.
pub open spec fn trim_end(s: Seq<char>) -> Seq<char>
    decreases s.len(),
{
    if s.len() > 0 && is_ws_char(s.last()) {
        trim_end(s.drop_last())
    } else {
        s
    }
}

/// The given sequence with whitespace removed from both ends.
pub open spec fn trim(s: Seq<char>) -> Seq<char> {
    trim_end(trim_start(s))
}

/// The pieces of `s` between occurrences of `'.'`, in order. There is always
/// at least one piece; an empty input has the single piece `""`.
pub open spec fn split_dots(s: Seq<char>) -> Seq<Seq<char>>
    decreases s.len(),
{
    if s.len() == 0 {
        seq![Seq::<char>::empty()]
    } else if s[0] == '.' {
        seq![Seq::<char>::empty()] + split_dots(s.drop_first())
    } else {
        let rest = split_dots(s.drop_first());
        seq![seq![s[0]] + rest[0]] + rest.drop_first()
    }
}

/// The pieces that survive trimming and the empty-piece filter, in order.
pub open spec fn kept_tags(pieces: Seq<Seq<char>>) -> Seq<Seq<char>> {
    pieces.map_values(|p: Seq<char>| trim(p)).filter(|p: Seq<char>| p.len() != 0)
}

/// The tag list encoded by a tag file's text: split on `'.'`, trim each
/// piece, and keep the pieces that are non-empty after trimming.
pub open spec fn parse_tags(content: Seq<char>) -> Seq<Seq<char>> {
    kept_tags(split_dots(content))
}

proof fn lemma_split_dots_len(s: Seq<char>)
    ensures
        split_dots(s).len() >= 1,
    decreases s.len(),
{
    if s.len() > 0 {
        lemma_split_dots_len(s.drop_first());
    }
}

proof fn lemma_split_dots_no_dot(s: Seq<char>)
    requires
        forall|k: int| 0 <= k < s.len() ==> s[k] != '.',
    ensures
        split_dots(s) == seq![s],
    decreases s.len(),
{
    if s.len() == 0 {
        assert(s =~= Seq::<char>::empty());
    } else {
        lemma_split_dots_no_dot(s.drop_first());
        let rest = split_dots(s.drop_first());
        assert(rest[0] == s.drop_first());
        assert(seq![s[0]] + rest[0] =~= s);
        assert(rest.drop_first() =~= Seq::<Seq<char>>::empty());
        assert(split_dots(s) =~= seq![s]);
    }
}

proof fn lemma_split_dots_append(a: Seq<char>, b: Seq<char>)
    ensures
        split_dots(a + seq!['.'] + b) == split_dots(a) + split_dots(b),
    decreases a.len(),
{
    let s = a + seq!['.'] + b;
    if a.len() == 0 {
        assert(s[0] == '.');
        assert(s.drop_first() =~= b);
        assert(split_dots(a) =~= seq![Seq::<char>::empty()]);
        assert(split_dots(s) =~= split_dots(a) + split_dots(b));
    } else {
        lemma_split_dots_append(a.drop_first(), b);
        assert(s.drop_first() =~= a.drop_first() + seq!['.'] + b);
        let rest = split_dots(s.drop_first());
        let ra = split_dots(a.drop_first());
        lemma_split_dots_len(a.drop_first());
        assert(rest == ra + split_dots(b));
        assert(rest[0] == ra[0]);
        assert(s[0] == a[0]);
        if a[0] == '.' {
            assert(split_dots(s) == seq![Seq::<char>::empty()] + rest);
            assert(split_dots(a) == seq![Seq::<char>::empty()] + ra);
            assert(seq![Seq::<char>::empty()] + (ra + split_dots(b)) =~= (seq![
                Seq::<char>::empty(),
            ] + ra) + split_dots(b));
        } else {
            assert(rest.drop_first() =~= ra.drop_first() + split_dots(b));
            assert(split_dots(s) == seq![seq![s[0]] + rest[0]] + rest.drop_first());
            assert(split_dots(a) == seq![seq![a[0]] + ra[0]] + ra.drop_first());
            assert(seq![seq![a[0]] + ra[0]] + (ra.drop_first() + split_dots(b)) =~= (seq![
                seq![a[0]] + ra[0],
            ] + ra.drop_first()) + split_dots(b));
        }
    }
}

proof fn lemma_kept_tags_concat(a: Seq<Seq<char>>, b: Seq<Seq<char>>)
    ensures
        kept_tags(a + b) == kept_tags(a) + kept_tags(b),
{
    let tr = |p: Seq<char>| trim(p);
    let ne = |p: Seq<char>| p.len() != 0;
    assert((a + b).map_values(tr) =~= a.map_values(tr) + b.map_values(tr));
    Seq::filter_distributes_over_add(a.map_values(tr), b.map_values(tr), ne);
}

proof fn lemma_kept_tags_one(p: Seq<char>)
    ensures
        trim(p).len() == 0 ==> kept_tags(seq![p]) == Seq::<Seq<char>>::empty(),
        trim(p).len() != 0 ==> kept_tags(seq![p]) == seq![trim(p)],
{
    let tr = |p: Seq<char>| trim(p);
    let ne = |p: Seq<char>| p.len() != 0;
    reveal(Seq::filter);
    assert(seq![p].map_values(tr) =~= seq![trim(p)]);
    assert(seq![trim(p)].drop_last() =~= Seq::<Seq<char>>::empty());
    assert(Seq::<Seq<char>>::empty().filter(ne) =~= Seq::<Seq<char>>::empty());
    if trim(p).len() != 0 {
        assert(seq![trim(p)].filter(ne) =~= seq![trim(p)]);
    } else {
        assert(seq![trim(p)].filter(ne) =~= Seq::<Seq<char>>::empty());
    }
}

/// The serialized form of a tag list: the tags joined with `". "`, with no
/// trailing separator.
pub open spec fn join_tags(tags: Seq<Seq<char>>) -> Seq<char>
    decreases tags.len(),
{
    if tags.len() == 0 {
        Seq::<char>::empty()
    } else if tags.len() == 1 {
        tags[0]
    } else {
        join_tags(tags.drop_last()) + tag_separator() + tags.last()
    }
}

/// A tag that the codec round-trips exactly: non-empty, free of the
/// separator character `'.'`, and carrying no whitespace at either end
/// (trimming such a tag leaves it unchanged).
pub open spec fn clean_tag(t: Seq<char>) -> bool {
    t.len() > 0 && (forall|k: int| 0 <= k < t.len() ==> t[k] != '.') && !is_ws_char(t[0])
        && !is_ws_char(t.last())
}

proof fn lemma_join_front(tags: Seq<Seq<char>>)
    requires
        tags.len() >= 2,
    ensures
        join_tags(tags) == tags[0] + tag_separator() + join_tags(tags.drop_first()),
    decreases tags.len(),
{
    if tags.len() == 2 {
        assert(tags.drop_last() =~= seq![tags[0]]);
        assert(tags.drop_first() =~= seq![tags[1]]);
        assert(join_tags(seq![tags[0]]) == tags[0]);
        assert(join_tags(seq![tags[1]]) == tags[1]);
    } else {
        let front = tags.drop_last();
        lemma_join_front(front);
        assert(front[0] == tags[0]);
        assert(front.drop_first() =~= tags.drop_first().drop_last());
        let rest = tags.drop_first();
        assert(rest.len() >= 2);
        assert(rest.last() == tags.last());
        assert(join_tags(rest) == join_tags(rest.drop_last()) + tag_separator() + rest.last());
        assert((tags[0] + tag_separator() + join_tags(rest.drop_last())) + tag_separator()
            + tags.last() =~= tags[0] + tag_separator() + (join_tags(rest.drop_last())
            + tag_separator() + tags.last()));
    }
}

/// Round-trip law: a tag list in which every tag is non-empty, free of the
/// separator character and trimmed reads back exactly as it was written.
pub proof fn lemma_codec_round_trip(tags: Seq<Seq<char>>)
    requires
        forall|k: int| 0 <= k < tags.len() ==> clean_tag(#[trigger] tags[k]),
    ensures
        parse_tags(join_tags(tags)) == tags,
    decreases tags.len(),
{
    reveal(Seq::filter);
    if tags.len() == 0 {
        let e = Seq::<char>::empty();
        assert(join_tags(tags) == e);
        assert(split_dots(e) == seq![e]);
        lemma_kept_tags_one(e);
        assert(trim(e) == e);
        assert(parse_tags(e) =~= tags);
    } else if tags.len() == 1 {
        let t = tags[0];
        assert(join_tags(tags) == t);
        lemma_split_dots_no_dot(t);
        lemma_kept_tags_one(t);
        assert(trim_start(t) == t);
        assert(trim_end(t) == t);
        assert(trim(t) == t);
        assert(parse_tags(t) == seq![t]);
        assert(seq![t] =~= tags);
    } else {
        let t0 = tags[0];
        let rest = tags.drop_first();
        assert(forall|k: int| 0 <= k < rest.len() ==> rest[k] == tags[k + 1]);
        lemma_codec_round_trip(rest);
        lemma_join_front(tags);
        let jr = join_tags(rest);
        let tail = seq![' '] + jr;
        assert(join_tags(tags) =~= t0 + seq!['.'] + tail);
        lemma_split_dots_append(t0, tail);
        lemma_split_dots_no_dot(t0);
        // The space that follows the separator's period becomes a leading
        // space on the first piece of the remainder, and trimming removes it.
        assert(tail.len() > 0 && tail[0] == ' ');
        assert(tail.drop_first() =~= jr);
        let rj = split_dots(jr);
        lemma_split_dots_len(jr);
        assert(split_dots(tail) == seq![seq![' '] + rj[0]] + rj.drop_first());
        lemma_kept_tags_concat(seq![t0], split_dots(tail));
        assert(split_dots(join_tags(tags)) =~= seq![t0] + split_dots(tail));
        lemma_kept_tags_one(t0);
        assert(trim_start(t0) == t0);
        assert(trim_end(t0) == t0);
        assert(trim(t0) == t0);
        lemma_kept_tags_concat(seq![seq![' '] + rj[0]], rj.drop_first());
        lemma_kept_tags_concat(seq![rj[0]], rj.drop_first());
        assert((seq![' '] + rj[0]).drop_first() =~= rj[0]);
        assert(trim_start(seq![' '] + rj[0]) == trim_start(rj[0]));
        lemma_kept_tags_one(seq![' '] + rj[0]);
        lemma_kept_tags_one(rj[0]);
        assert(rj =~= seq![rj[0]] + rj.drop_first());
        assert(kept_tags(split_dots(tail)) == kept_tags(rj));
        assert(kept_tags(rj) == rest);
        assert(parse_tags(join_tags(tags)) == seq![t0] + rest);
        assert(seq![t0] + rest =~= tags);
    }
}

proof fn lemma_trim_start_shape(s: Seq<char>)
    ensures
        trim_start(s).len() <= s.len(),
        trim_start(s) == s.subrange(s.len() - trim_start(s).len(), s.len() as int),
        trim_start(s).len() > 0 ==> !is_ws_char(trim_start(s)[0]),
    decreases s.len(),
{
    if s.len() > 0 && is_ws_char(s[0]) {
        lemma_trim_start_shape(s.drop_first());
        let t = trim_start(s);
        assert(s.drop_first().subrange(s.drop_first().len() - t.len(), s.drop_first().len() as int)
            =~= s.subrange(s.len() - t.len(), s.len() as int));
    } else {
        assert(s.subrange(0, s.len() as int) =~= s);
    }
}

proof fn lemma_trim_end_shape(s: Seq<char>)
    ensures
        trim_end(s).len() <= s.len(),
        trim_end(s) == s.subrange(0, trim_end(s).len() as int),
        trim_end(s).len() > 0 ==> !is_ws_char(trim_end(s).last()),
    decreases s.len(),
{
    if s.len() > 0 && is_ws_char(s.last()) {
        lemma_trim_end_shape(s.drop_last());
        let t = trim_end(s);
        assert(s.drop_last().subrange(0, t.len() as int) =~= s.subrange(0, t.len() as int));
    } else {
        assert(s.subrange(0, s.len() as int) =~= s);
    }
}

proof fn lemma_trim_clean(p: Seq<char>)
    requires
        forall|k: int| 0 <= k < p.len() ==> p[k] != '.',
    ensures
        trim(p).len() > 0 ==> clean_tag(trim(p)),
{
    lemma_trim_start_shape(p);
    let u = trim_start(p);
    lemma_trim_end_shape(u);
    let t = trim_end(u);
    if t.len() > 0 {
        assert(t[0] == u[0]);
        assert forall|k: int| 0 <= k < t.len() implies t[k] != '.' by {
            assert(t[k] == u[k]);
            assert(u[k] == p[p.len() - u.len() + k]);
        }
    }
}

proof fn lemma_split_dots_pieces_dot_free(s: Seq<char>)
    ensures
        forall|i: int, k: int|
            0 <= i < split_dots(s).len() && 0 <= k < split_dots(s)[i].len()
                ==> split_dots(s)[i][k] != '.',
    decreases s.len(),
{
    if s.len() == 0 {
    } else if s[0] == '.' {
        lemma_split_dots_pieces_dot_free(s.drop_first());
        let r = split_dots(s);
        let rest = split_dots(s.drop_first());
        assert forall|i: int, k: int| 0 <= i < r.len() && 0 <= k < r[i].len() implies r[i][k]
            != '.' by {
            if i >= 1 {
                assert(r[i] == rest[i - 1]);
            }
        }
    } else {
        lemma_split_dots_pieces_dot_free(s.drop_first());
        let r = split_dots(s);
        let rest = split_dots(s.drop_first());
        assert forall|i: int, k: int| 0 <= i < r.len() && 0 <= k < r[i].len() implies r[i][k]
            != '.' by {
            if i == 0 {
                assert(r[0] == seq![s[0]] + rest[0]);
                if k >= 1 {
                    assert(r[0][k] == rest[0][k - 1]);
                }
            } else {
                assert(r[i] == rest[i]);
            }
        }
    }
}

proof fn lemma_kept_tags_clean(pieces: Seq<Seq<char>>)
    requires
        forall|i: int, k: int|
            0 <= i < pieces.len() && 0 <= k < pieces[i].len() ==> pieces[i][k] != '.',
    ensures
        forall|i: int| 0 <= i < kept_tags(pieces).len() ==> clean_tag(
            #[trigger] kept_tags(pieces)[i],
        ),
    decreases pieces.len(),
{
    reveal(Seq::filter);
    if pieces.len() == 0 {
        assert(pieces.map_values(|p: Seq<char>| trim(p)) =~= Seq::<Seq<char>>::empty());
        assert(kept_tags(pieces) =~= Seq::<Seq<char>>::empty());
    } else {
        let front = pieces.drop_last();
        let last = pieces.last();
        lemma_kept_tags_clean(front);
        assert(pieces =~= front + seq![last]);
        lemma_kept_tags_concat(front, seq![last]);
        lemma_kept_tags_one(last);
        lemma_trim_clean(last);
    }
}

/// Every tag parsed out of a tag file is clean: non-empty, free of the
/// separator character, and carrying no whitespace at either end.
pub proof fn lemma_parse_tags_clean(content: Seq<char>)
    ensures
        forall|i: int| 0 <= i < parse_tags(content).len() ==> clean_tag(
            #[trigger] parse_tags(content)[i],
        ),
{
    lemma_split_dots_pieces_dot_free(content);
    lemma_kept_tags_clean(split_dots(content));
}

/// Stability law: rewriting a tag file from its parsed tags yields a text
/// that parses back to the same tags, so a tag set round-trips
/// deterministically once it has been read.
pub proof fn lemma_reserialize_stable(content: Seq<char>)
    ensures
        parse_tags(join_tags(parse_tags(content))) == parse_tags(content),
{
    lemma_parse_tags_clean(content);
    lemma_codec_round_trip(parse_tags(content));
}

proof fn lemma_split_prefix(s: Seq<char>, start: int, i: int, emitted: Seq<Seq<char>>)
    requires
        0 <= start <= i <= s.len(),
        forall|k: int| start <= k < i ==> s[k] != '.',
        start == 0 ==> emitted == Seq::<Seq<char>>::empty(),
        start >= 1 ==> s[start - 1] == '.' && split_dots(s.subrange(0, start - 1)) == emitted,
    ensures
        split_dots(s.subrange(0, i)) == emitted + seq![s.subrange(start, i)],
{
    let piece = s.subrange(start, i);
    lemma_split_dots_no_dot(piece);
    if start == 0 {
        assert(s.subrange(0, i) =~= piece);
        assert(split_dots(piece) =~= emitted + seq![piece]);
    } else {
        assert(s.subrange(0, i) =~= s.subrange(0, start - 1) + seq!['.'] + piece);
        lemma_split_dots_append(s.subrange(0, start - 1), piece);
    }
}

/// Pushes the trimmed piece `content[start..end]` onto `r`, unless it is
/// empty after trimming, in which case `r` is left as it was.
fn push_trimmed(content: &str, start: usize, end: usize, r: &mut Vec<String>)
    requires
        start <= end <= content@.len(),
    ensures
        ({
            let t = trim(content@.subrange(start as int, end as int));
            final(r).deep_view() == if t.len() == 0 {
                old(r).deep_view()
            } else {
                old(r).deep_view().push(t)
            }
        }),
{
    let ghost s = content@;
    let ghost piece = s.subrange(start as int, end as int);
    let mut lo = start;
    let mut hi = end;
    while lo < hi && is_ws_char_exec(content.get_char(lo))
        invariant
            start <= lo <= hi <= end <= s.len(),
            s == content@,
            trim(piece) == trim(s.subrange(lo as int, hi as int)),
        decreases hi - lo,
    {
        proof {
            let cur = s.subrange(lo as int, hi as int);
            let next = s.subrange(lo as int + 1, hi as int);
            assert(cur[0] == s[lo as int]);
            assert(cur.drop_first() =~= next);
            assert(trim_start(cur) == trim_start(next));
        }
        lo = lo + 1;
    }
    while hi > lo && is_ws_char_exec(content.get_char(hi - 1))
        invariant
            start <= lo <= hi <= end <= s.len(),
            s == content@,
            trim(piece) == trim(s.subrange(lo as int, hi as int)),
            lo == hi || !is_ws_char(s[lo as int]),
        decreases hi,
    {
        proof {
            let cur = s.subrange(lo as int, hi as int);
            let next = s.subrange(lo as int, hi as int - 1);
            assert(cur.last() == s[hi as int - 1]);
            assert(cur[0] == s[lo as int]);
            assert(cur.len() >= 2);
            assert(cur.drop_last() =~= next);
            assert(trim_start(cur) == cur);
            assert(trim_end(cur) == trim_end(next));
            assert(next[0] == cur[0]);
            assert(trim_start(next) == next);
        }
        hi = hi - 1;
    }
    proof {
        let cur = s.subrange(lo as int, hi as int);
        assert(trim_start(cur) == cur);
        assert(trim_end(cur) == cur);
        assert(trim(piece) == cur);
    }
    if lo < hi {
        let t = content.substring_char(lo, hi);
        r.push(String::from_str(t));
        proof {
            assert(r.deep_view() =~= old(r).deep_view().push(trim(piece)));
        }
    }
}

/// Joins the given tags with the literal separator `". "`. No trailing
/// separator is written; tags containing the separator are not escaped.
pub fn serialize_tags(tags: &Vec<String>) -> (r: String)
    ensures
        r@ == join_tags(tags.deep_view()),
{
    let mut r = String::new();
    proof {
        reveal_strlit(". ");
        assert(tags.deep_view().subrange(0, 0) =~= Seq::<Seq<char>>::empty());
    }
    let n = tags.len();
    let mut i: usize = 0;
    while i < n
        invariant
            i <= n,
            n == tags.len(),
            tags.deep_view().len() == n,
            ". "@ == tag_separator(),
            r@ == join_tags(tags.deep_view().subrange(0, i as int)),
        decreases n - i,
    {
        if i > 0 {
            r.append(". ");
        }
        r.append(tags[i].as_str());
        proof {
            let tv = tags.deep_view();
            assert(tags[i as int]@ == tv[i as int]);
            let pre = tv.subrange(0, i as int);
            let post = tv.subrange(0, i + 1 as int);
            assert(post.drop_last() =~= pre);
            assert(post.last() == tv[i as int]);
            if i == 0 {
                assert(join_tags(post) == tv[0]);
            }
        }
        i = i + 1;
    }
    proof {
        assert(tags.deep_view().subrange(0, n as int) =~= tags.deep_view());
    }
    r
}

/// Splits the given text on the literal separator `'.'`, trims surrounding
/// whitespace from each piece, and discards the pieces that are empty after
/// trimming. Any string is a valid tag file; there is no error path.
pub fn deserialize_tags(content: &str) -> (r: Vec<String>)
    ensures
        r.deep_view() == parse_tags(content@),
{
    let ghost s = content@;
    let n = content.unicode_len();
    let mut r: Vec<String> = Vec::new();
    let ghost mut emitted: Seq<Seq<char>> = Seq::<Seq<char>>::empty();
    let mut start: usize = 0;
    let mut i: usize = 0;
    proof {
        assert(r.deep_view() =~= Seq::<Seq<char>>::empty());
        assert(Seq::<Seq<char>>::empty().map_values(|p: Seq<char>| trim(p)) =~= Seq::<
            Seq<char>,
        >::empty());
        reveal(Seq::filter);
        assert(kept_tags(Seq::<Seq<char>>::empty()) =~= Seq::<Seq<char>>::empty());
    }
    while i < n
        invariant
            start <= i <= n,
            n == s.len(),
            s == content@,
            forall|k: int| start <= k < i ==> s[k] != '.',
            r.deep_view() == kept_tags(emitted),
            start == 0 ==> emitted == Seq::<Seq<char>>::empty(),
            start >= 1 ==> s[start - 1] == '.' && split_dots(s.subrange(0, start as int - 1))
                == emitted,
        decreases n - i,
    {
        let c = content.get_char(i);
        if c == '.' {
            let ghost piece = s.subrange(start as int, i as int);
            push_trimmed(content, start, i, &mut r);
            proof {
                lemma_split_prefix(s, start as int, i as int, emitted);
                lemma_kept_tags_concat(emitted, seq![piece]);
                lemma_kept_tags_one(piece);
                emitted = emitted + seq![piece];
                assert(r.deep_view() =~= kept_tags(emitted));
            }
            start = i + 1;
        }
        i = i + 1;
    }
    let ghost piece = s.subrange(start as int, n as int);
    push_trimmed(content, start, n, &mut r);
    proof {
        lemma_split_prefix(s, start as int, n as int, emitted);
        lemma_kept_tags_concat(emitted, seq![piece]);
        lemma_kept_tags_one(piece);
        assert(s.subrange(0, n as int) =~= s);
        assert(r.deep_view() =~= kept_tags(emitted + seq![piece]));
    }
    r
}

} // verus!
