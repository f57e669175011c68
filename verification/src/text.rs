//! Character-level text handling: splitting on a separator character,
//! splitting on whitespace, and joining.

use vstd::prelude::*;

verus! {

/// The pieces of `s` between occurrences of `sep` (empty pieces included);
/// a text without `sep` is one piece, the empty text is one empty piece.
pub open spec fn split_on(s: Seq<char>, sep: char) -> Seq<Seq<char>>
    decreases s.len(),
{
    if s.len() == 0 {
        seq![Seq::<char>::empty()]
    } else {
        let init = split_on(s.drop_last(), sep);
        if s.last() == sep {
            init.push(Seq::<char>::empty())
        } else {
            init.update(init.len() - 1, init.last().push(s.last()))
        }
    }
}

pub proof fn lemma_split_on_nonempty(s: Seq<char>, sep: char)
    ensures
        split_on(s, sep).len() >= 1,
    decreases s.len(),
{
    if s.len() > 0 {
        lemma_split_on_nonempty(s.drop_last(), sep);
    }
}

/// Splits `s` at every occurrence of `sep`.
pub fn split_at_char(s: &str, sep: char) -> (pieces: Vec<String>)
    ensures
        pieces.deep_view() == split_on(s@, sep),
{
    let n = s.unicode_len();
    let mut pieces: Vec<String> = Vec::new();
    let mut start: usize = 0;
    let mut i: usize = 0;
    assert(s@.take(0) =~= Seq::<char>::empty());
    assert(pieces.deep_view() =~= Seq::<Seq<char>>::empty());
    while i < n
        invariant
            n == s@.len(),
            start <= i <= n,
            pieces.deep_view().push(s@.subrange(start as int, i as int)) == split_on(
                s@.take(i as int),
                sep,
            ),
        decreases n - i,
    {
        let c = s.get_char(i);
        proof {
            assert(s@.take(i + 1).drop_last() == s@.take(i as int));
            assert(s@.take(i + 1).last() == c);
            lemma_split_on_nonempty(s@.take(i as int), sep);
        }
        if c == sep {
            let piece = String::from_str(s.substring_char(start, i));
            pieces.push(piece);
            start = i + 1;
            assert(s@.subrange(start as int, i + 1) == Seq::<char>::empty());
        } else {
            assert(s@.subrange(start as int, i + 1) == s@.subrange(start as int, i as int).push(c));
        }
        i = i + 1;
    }
    let last = String::from_str(s.substring_char(start, n));
    pieces.push(last);
    assert(s@.take(n as int) == s@);
    pieces
}


/// Unicode `White_Space`, the property that `char::is_whitespace` documents.
pub open spec fn is_space(c: char) -> bool {
    let u = c as u32;
    ||| 0x09 <= u <= 0x0d
    ||| u == 0x20
    ||| u == 0x85
    ||| u == 0xa0
    ||| u == 0x1680
    ||| 0x2000 <= u <= 0x200a
    ||| u == 0x2028
    ||| u == 0x2029
    ||| u == 0x202f
    ||| u == 0x205f
    ||| u == 0x3000
}

/// Whether `c` is whitespace.
pub fn is_space_char(c: char) -> (b: bool)
    ensures
        b == is_space(c),
{
    let u = c as u32;
    (0x09 <= u && u <= 0x0d) || u == 0x20 || u == 0x85 || u == 0xa0 || u == 0x1680 || (0x2000
        <= u && u <= 0x200a) || u == 0x2028 || u == 0x2029 || u == 0x202f || u == 0x205f || u
        == 0x3000
}

/// The maximal runs of non-whitespace characters of `s`, in order.
pub open spec fn words(s: Seq<char>) -> Seq<Seq<char>>
    decreases s.len(),
{
    if s.len() == 0 {
        Seq::<Seq<char>>::empty()
    } else {
        let init = words(s.drop_last());
        let c = s.last();
        if is_space(c) {
            init
        } else if s.len() > 1 && !is_space(s[s.len() - 2]) {
            init.update(init.len() - 1, init.last().push(c))
        } else {
            init.push(seq![c])
        }
    }
}

/// Splits `s` into its whitespace-separated words.
pub fn split_words(s: &str) -> (ws: Vec<String>)
    ensures
        ws.deep_view() == words(s@),
{
    let n = s.unicode_len();
    let mut ws: Vec<String> = Vec::new();
    let mut start: usize = 0;
    let mut in_word = false;
    let mut i: usize = 0;
    assert(s@.take(0) =~= Seq::<char>::empty());
    assert(ws.deep_view() =~= Seq::<Seq<char>>::empty());
    while i < n
        invariant
            n == s@.len(),
            start <= i <= n,
            in_word == (i > 0 && !is_space(s@[i - 1])),
            in_word ==> start < i,
            ws.deep_view() + (if in_word {
                seq![s@.subrange(start as int, i as int)]
            } else {
                Seq::<Seq<char>>::empty()
            }) == words(s@.take(i as int)),
        decreases n - i,
    {
        let c = s.get_char(i);
        let space = is_space_char(c);
        let ghost prefix = s@.take(i + 1);
        proof {
            assert(prefix.drop_last() == s@.take(i as int));
            assert(prefix.last() == c);
            if i > 0 {
                assert(prefix[prefix.len() - 2] == s@[i - 1]);
            }
        }
        if space {
            if in_word {
                let w = String::from_str(s.substring_char(start, i));
                ws.push(w);
                assert(ws.deep_view() =~= words(s@.take(i as int)));
            } else {
                assert(ws.deep_view() + Seq::<Seq<char>>::empty() =~= ws.deep_view());
            }
            in_word = false;
        } else {
            if in_word {
                assert(s@.subrange(start as int, i + 1) == s@.subrange(start as int, i as int).push(
                    c,
                ));
                assert(ws.deep_view() + seq![s@.subrange(start as int, i + 1)] =~= words(
                    s@.take(i as int),
                ).update(
                    words(s@.take(i as int)).len() - 1,
                    words(s@.take(i as int)).last().push(c),
                ));
            } else {
                start = i;
                assert(s@.subrange(start as int, i + 1) =~= seq![c]);
                assert(ws.deep_view() + Seq::<Seq<char>>::empty() =~= ws.deep_view());
                assert(ws.deep_view() + seq![s@.subrange(start as int, i + 1)] =~= words(
                    s@.take(i as int),
                ).push(seq![c]));
            }
            in_word = true;
        }
        i = i + 1;
    }
    assert(s@.take(n as int) == s@);
    if in_word {
        let w = String::from_str(s.substring_char(start, n));
        ws.push(w);
        assert(ws.deep_view() =~= words(s@));
    } else {
        assert(ws.deep_view() + Seq::<Seq<char>>::empty() =~= ws.deep_view());
    }
    ws
}

/// `parts` joined with `sep` between consecutive parts.
pub open spec fn joined(parts: Seq<Seq<char>>, sep: Seq<char>) -> Seq<char>
    decreases parts.len(),
{
    if parts.len() == 0 {
        Seq::<char>::empty()
    } else if parts.len() == 1 {
        parts[0]
    } else {
        joined(parts.drop_last(), sep) + sep + parts.last()
    }
}

/// Joins `parts` with `sep` between consecutive parts.
pub fn join_with(parts: &Vec<String>, sep: &str) -> (r: String)
    ensures
        r@ == joined(parts.deep_view(), sep@),
{
    let mut r = String::new();
    let mut i: usize = 0;
    assert(parts.deep_view().take(0) =~= Seq::<Seq<char>>::empty());
    while i < parts.len()
        invariant
            i <= parts.len(),
            r@ == joined(parts.deep_view().take(i as int), sep@),
        decreases parts.len() - i,
    {
        let ghost dv = parts.deep_view();
        assert(dv.take(i + 1).drop_last() =~= dv.take(i as int));
        assert(dv.take(i + 1).last() == parts[i as int]@);
        if i > 0 {
            r.append(sep);
        } else {
            assert(r@ + parts[i as int]@ =~= parts[i as int]@);
        }
        r.append(parts[i].as_str());
        i = i + 1;
    }
    assert(parts.deep_view().take(parts.len() as int) =~= parts.deep_view());
    r
}

/// Splitting at `sep` cuts only at `sep`: no piece holds `sep`, and the pieces joined
/// with `sep` give the text back; a text without `sep` is a single piece.
pub proof fn law_split_cuts_only_at_separator(s: Seq<char>, sep: char)
    ensures
        forall|i: int| 0 <= i < split_on(s, sep).len() ==> !(#[trigger] split_on(s, sep)[i]).contains(sep),
        joined(split_on(s, sep), seq![sep]) == s,
        !s.contains(sep) ==> split_on(s, sep) == seq![s],
    decreases s.len(),
{
    lemma_split_on_nonempty(s, sep);
    if s.len() > 0 {
        let init = s.drop_last();
        let p = split_on(init, sep);
        law_split_cuts_only_at_separator(init, sep);
        lemma_split_on_nonempty(init, sep);
        if s.last() == sep {
            let q = p.push(Seq::<char>::empty());
            assert(q.drop_last() == p);
            assert(joined(q, seq![sep]) == joined(p, seq![sep]) + seq![sep] + Seq::<char>::empty());
            assert(s =~= init + seq![sep] + Seq::<char>::empty());
            assert forall|i: int| 0 <= i < q.len() implies !q[i].contains(sep) by {
                if i < p.len() {
                    assert(q[i] == p[i]);
                } else {
                    assert(q[i] =~= Seq::<char>::empty());
                }
            }
            assert(s.contains(sep)) by {
                assert(s[s.len() - 1] == sep);
            }
        } else {
            let c = s.last();
            let q = p.update(p.len() - 1, p.last().push(c));
            assert forall|i: int| 0 <= i < q.len() implies !q[i].contains(sep) by {
                if i < p.len() - 1 {
                    assert(q[i] == p[i]);
                } else {
                    assert(q[i] == p.last().push(c));
                    assert(!p[p.len() - 1].contains(sep));
                    if q[i].contains(sep) {
                        let k = choose|k: int| 0 <= k < q[i].len() && q[i][k] == sep;
                        if k < p.last().len() {
                            assert(p.last()[k] == sep);
                        }
                    }
                }
            }
            if p.len() == 1 {
                assert(joined(q, seq![sep]) == q[0]);
                assert(joined(p, seq![sep]) == p[0]);
                assert(s =~= init.push(c));
            } else {
                assert(q.drop_last() =~= p.drop_last());
                assert(joined(q, seq![sep]) == joined(p.drop_last(), seq![sep]) + seq![sep] + p.last().push(c));
                assert(joined(p, seq![sep]) == joined(p.drop_last(), seq![sep]) + seq![sep] + p.last());
                assert(s =~= init.push(c));
                assert(joined(q, seq![sep]) =~= joined(p, seq![sep]).push(c));
            }
            if !s.contains(sep) {
                assert(!init.contains(sep)) by {
                    if init.contains(sep) {
                        let k = choose|k: int| 0 <= k < init.len() && init[k] == sep;
                        assert(s[k] == sep);
                    }
                }
                assert(p == seq![init]);
                assert(q =~= seq![s]);
            }
        }
    }
}

/// Whitespace is Unicode `White_Space` and nothing else: in ASCII the tab, line feed,
/// vertical tab, form feed, carriage return and space, so no printable ASCII character
/// (`|`, `&`, `;` among them) is whitespace; beyond ASCII, U+0085, U+00A0, U+1680,
/// U+2000 to U+200A, U+2028, U+2029, U+202F, U+205F and U+3000.
pub proof fn law_space_is_unicode_white_space(c: char)
    ensures
        (c as u32) < 0x80 ==> (is_space(c) <==> (c == ' ' || c == '\t' || c == '\n' || c == '\r'
            || c == '\u{0b}' || c == '\u{0c}')),
        '!' <= c <= '~' ==> !is_space(c),
        (c as u32) >= 0x80 ==> (is_space(c) <==> (c == '\u{85}' || c == '\u{a0}' || c
            == '\u{1680}' || ('\u{2000}' <= c <= '\u{200a}') || c == '\u{2028}' || c == '\u{2029}'
            || c == '\u{202f}' || c == '\u{205f}' || c == '\u{3000}')),
{
}

/// The words of a text and its characters that are not whitespace, in order.
proof fn lemma_words_flatten(s: Seq<char>)
    ensures
        forall|i: int| 0 <= i < words(s).len() ==> (#[trigger] words(s)[i]).len() > 0,
        forall|i: int, j: int|
            0 <= i < words(s).len() && 0 <= j < words(s)[i].len() ==> !is_space(
                #[trigger] words(s)[i][j],
            ),
        words(s).flatten_alt() == s.filter(|c: char| !is_space(c)),
        s.len() > 0 && !is_space(s.last()) ==> words(s).len() > 0,
    decreases s.len(),
{
    reveal(Seq::filter);
    if s.len() > 0 {
        let init = s.drop_last();
        let w = words(init);
        let c = s.last();
        lemma_words_flatten(init);
        assert(s.filter(|c: char| !is_space(c)) == init.filter(|c: char| !is_space(c)) + (if is_space(c) {
            Seq::<char>::empty()
        } else {
            seq![c]
        })) by {
            if is_space(c) {
                assert(init.filter(|c: char| !is_space(c)) + Seq::<char>::empty() =~= init.filter(
                    |c: char| !is_space(c),
                ));
            } else {
                assert(init.filter(|c: char| !is_space(c)) + seq![c] =~= init.filter(
                    |c: char| !is_space(c),
                ).push(c));
            }
        }
        if is_space(c) {
            assert(init.filter(|c: char| !is_space(c)) + Seq::<char>::empty() =~= init.filter(
                |c: char| !is_space(c),
            ));
        } else if s.len() > 1 && !is_space(s[s.len() - 2]) {
            assert(init.last() == s[s.len() - 2]);
            let q = w.update(w.len() - 1, w.last().push(c));
            assert(q.drop_last() =~= w.drop_last());
            assert(q.flatten_alt() == q.drop_last().flatten_alt() + q.last());
            assert(w.flatten_alt() == w.drop_last().flatten_alt() + w.last());
            assert(q.flatten_alt() =~= w.flatten_alt() + seq![c]);
            assert forall|i: int, j: int|
                0 <= i < q.len() && 0 <= j < q[i].len() implies !is_space(#[trigger] q[i][j]) by {
                if i < w.len() - 1 {
                    assert(q[i] == w[i]);
                } else if j < w.last().len() {
                    assert(q[i][j] == w[w.len() - 1][j]);
                }
            }
            assert forall|i: int| 0 <= i < q.len() implies (#[trigger] q[i]).len() > 0 by {
                if i < w.len() - 1 {
                    assert(q[i] == w[i]);
                }
            }
        } else {
            let q = w.push(seq![c]);
            assert(q.drop_last() =~= w);
            assert(q.flatten_alt() == w.flatten_alt() + seq![c]);
            assert forall|i: int, j: int|
                0 <= i < q.len() && 0 <= j < q[i].len() implies !is_space(#[trigger] q[i][j]) by {
                if i < w.len() {
                    assert(q[i] == w[i]);
                }
            }
            assert forall|i: int| 0 <= i < q.len() implies (#[trigger] q[i]).len() > 0 by {
                if i < w.len() {
                    assert(q[i] == w[i]);
                }
            }
        }
    } else {
        assert(s.filter(|c: char| !is_space(c)) =~= Seq::<char>::empty());
    }
}

/// The words of a text are non-empty and hold no whitespace, and together, in order,
/// they are exactly the text's characters that are not whitespace: splitting into words
/// drops whitespace and nothing else.
pub proof fn law_words_keep_every_other_character(s: Seq<char>)
    ensures
        forall|i: int| 0 <= i < words(s).len() ==> (#[trigger] words(s)[i]).len() > 0,
        forall|i: int, j: int|
            0 <= i < words(s).len() && 0 <= j < words(s)[i].len() ==> !is_space(
                #[trigger] words(s)[i][j],
            ),
        words(s).flatten() == s.filter(|c: char| !is_space(c)),
{
    lemma_words_flatten(s);
    words(s).lemma_flatten_and_flatten_alt_are_equivalent();
}

/// A non-empty text without whitespace is one word.
pub proof fn law_unbroken_text_is_one_word(s: Seq<char>)
    requires
        s.len() > 0,
        forall|i: int| 0 <= i < s.len() ==> !is_space(#[trigger] s[i]),
    ensures
        words(s) == seq![s],
    decreases s.len(),
{
    let init = s.drop_last();
    if init.len() == 0 {
        assert(words(init) =~= Seq::<Seq<char>>::empty());
        assert(seq![s.last()] =~= s);
        assert(Seq::<Seq<char>>::empty().push(seq![s.last()]) =~= seq![s]);
    } else {
        assert forall|i: int| 0 <= i < init.len() implies !is_space(#[trigger] init[i]) by {
            assert(init[i] == s[i]);
        }
        law_unbroken_text_is_one_word(init);
        assert(!is_space(s[s.len() - 2]));
        assert(init.push(s.last()) =~= s);
        assert(seq![init].update(0, init.push(s.last())) =~= seq![s]);
    }
}

/// Whitespace separates words: the words of two texts with whitespace between them are
/// the words of the first, then those of the second.
pub proof fn law_whitespace_separates_words(a: Seq<char>, x: char, b: Seq<char>)
    requires
        is_space(x),
    ensures
        words(a.push(x) + b) == words(a) + words(b),
    decreases b.len(),
{
    let s = a.push(x) + b;
    if b.len() == 0 {
        assert(s =~= a.push(x));
        assert(s.drop_last() =~= a);
        assert(words(a) + words(b) =~= words(a));
    } else {
        let b0 = b.drop_last();
        let d = b.last();
        law_whitespace_separates_words(a, x, b0);
        assert(s.drop_last() =~= a.push(x) + b0);
        assert(s.last() == d);
        let w = words(a.push(x) + b0);
        if is_space(d) {
        } else {
            assert(s[s.len() - 2] == (if b0.len() > 0 { b0.last() } else { x }));
            if b0.len() > 0 && !is_space(b0.last()) {
                assert(b[b.len() - 2] == b0.last());
                lemma_words_flatten(b0);
                assert(words(b0).len() > 0);
                assert((words(a) + words(b0)).update(
                    words(a).len() + words(b0).len() - 1,
                    words(b0).last().push(d),
                ) =~= words(a) + words(b0).update(words(b0).len() - 1, words(b0).last().push(d)));
            } else {
                if b.len() > 1 {
                    assert(b[b.len() - 2] == b0.last());
                }
                assert((words(a) + words(b0)).push(seq![d]) =~= words(a) + words(b0).push(seq![d]));
            }
        }
    }
}

} // verus!
