use vstd::prelude::*;

verus! {

/// Unicode `White_Space` characters, as `char::is_whitespace` recognises them.
pub open spec fn space_char(c: char) -> bool {
    ('\u{9}' <= c && c <= '\u{d}') || c == ' ' || c == '\u{85}' || c == '\u{a0}' || c == '\u{1680}'
        || ('\u{2000}' <= c && c <= '\u{200a}') || c == '\u{2028}' || c == '\u{2029}' || c
        == '\u{202f}' || c == '\u{205f}' || c == '\u{3000}'
}

/// Sentence-terminal punctuation.
pub open spec fn terminator_char(c: char) -> bool {
    c == '.' || c == '?' || c == '!' || c == ';'
}

/// Characters that end a word: white space and sentence-terminal punctuation.
pub open spec fn separator_char(c: char) -> bool {
    space_char(c) || terminator_char(c)
}

/// One step of the word scanner: the words closed so far and the word being read.
pub open spec fn scan_step(st: (Seq<Seq<char>>, Seq<char>), c: char) -> (Seq<Seq<char>>, Seq<char>) {
    if separator_char(c) {
        (close(st), Seq::empty())
    } else {
        (st.0, st.1.push(c))
    }
}

/// The closed words followed by the open word, if it is not empty.
pub open spec fn close(st: (Seq<Seq<char>>, Seq<char>)) -> Seq<Seq<char>> {
    if st.1.len() > 0 {
        st.0.push(st.1)
    } else {
        st.0
    }
}

/// Scanner state after reading all of `s`.
pub open spec fn scan(s: Seq<char>) -> (Seq<Seq<char>>, Seq<char>)
    decreases s.len(),
{
    if s.len() == 0 {
        (Seq::empty(), Seq::empty())
    } else {
        scan_step(scan(s.drop_last()), s.last())
    }
}

/// The words of `s`: maximal runs of characters that are not separators, in order.
pub open spec fn words(s: Seq<char>) -> Seq<Seq<char>> {
    close(scan(s))
}

/// The words of each text of `texts`, one text after another.
pub open spec fn words_of_all(texts: Seq<Seq<char>>) -> Seq<Seq<char>>
    decreases texts.len(),
{
    if texts.len() == 0 {
        Seq::empty()
    } else {
        words(texts[0]) + words_of_all(texts.drop_first())
    }
}

/// `s` holds no white space.
pub open spec fn no_space(s: Seq<char>) -> bool {
    forall|i: int| 0 <= i < s.len() ==> !space_char(#[trigger] s[i])
}

/// The characters at which a text is split: sentence terminators, or white space.
pub open spec fn split_char(at_terminators: bool, c: char) -> bool {
    if at_terminators {
        terminator_char(c)
    } else {
        space_char(c)
    }
}

/// Scanner state for the runs between split characters: the runs closed so far and the run
/// being read.
pub open spec fn scan_runs(s: Seq<char>, at_terminators: bool) -> (Seq<Seq<char>>, Seq<char>)
    decreases s.len(),
{
    if s.len() == 0 {
        (Seq::empty(), Seq::empty())
    } else {
        let st = scan_runs(s.drop_last(), at_terminators);
        if split_char(at_terminators, s.last()) {
            (close(st), Seq::empty())
        } else {
            (st.0, st.1.push(s.last()))
        }
    }
}

/// The maximal non-empty runs of `s` without a split character, in order.
pub open spec fn runs(s: Seq<char>, at_terminators: bool) -> Seq<Seq<char>> {
    close(scan_runs(s, at_terminators))
}

/// `s` without its leading white space.
pub open spec fn trim_start(s: Seq<char>) -> Seq<char>
    decreases s.len(),
{
    if s.len() > 0 && space_char(s[0]) {
        trim_start(s.drop_first())
    } else {
        s
    }
}

/// `s` without its trailing white space.
pub open spec fn trim_end(s: Seq<char>) -> Seq<char>
    decreases s.len(),
{
    if s.len() > 0 && space_char(s.last()) {
        trim_end(s.drop_last())
    } else {
        s
    }
}

/// `s` without leading and trailing white space.
pub open spec fn trimmed(s: Seq<char>) -> Seq<char> {
    trim_end(trim_start(s))
}

/// Sentences from the pieces between terminators: each trimmed and ended with `.`, those with
/// nothing left after trimming dropped.
pub open spec fn sentences_from(pieces: Seq<Seq<char>>) -> Seq<Seq<char>>
    decreases pieces.len(),
{
    if pieces.len() == 0 {
        Seq::empty()
    } else {
        let rest = sentences_from(pieces.drop_last());
        let t = trimmed(pieces.last());
        if t.len() > 0 {
            rest.push(t.push('.'))
        } else {
            rest
        }
    }
}

/// The sentences of a text.
pub open spec fn sentences_of(s: Seq<char>) -> Seq<Seq<char>> {
    sentences_from(runs(s, true))
}

/// Reading a separator between two texts splits their words apart.
pub proof fn lemma_scan_split(a: Seq<char>, c: char, b: Seq<char>)
    requires
        separator_char(c),
    ensures
        scan(a.push(c) + b) == (words(a) + scan(b).0, scan(b).1),
    decreases b.len(),
{
    if b.len() == 0 {
        assert(a.push(c) + b =~= a.push(c));
        assert(a.push(c).drop_last() =~= a);
        assert(words(a) + Seq::<Seq<char>>::empty() =~= words(a));
    } else {
        let b0 = b.drop_last();
        lemma_scan_split(a, c, b0);
        assert((a.push(c) + b).drop_last() =~= a.push(c) + b0);
        assert((a.push(c) + b).last() == b.last());
        let x = b.last();
        let d = scan(b0).0;
        let p = scan(b0).1;
        if separator_char(x) && p.len() > 0 {
            assert((words(a) + d).push(p) =~= words(a) + d.push(p));
        }
    }
}

/// The words of two texts joined by a separator are the words of each, in order.
pub proof fn lemma_words_split(a: Seq<char>, c: char, b: Seq<char>)
    requires
        separator_char(c),
    ensures
        words(a.push(c) + b) == words(a) + words(b),
{
    lemma_scan_split(a, c, b);
    let d = scan(b).0;
    let p = scan(b).1;
    if p.len() > 0 {
        assert((words(a) + d).push(p) =~= words(a) + d.push(p));
    }
}

/// A separator at either end of a text adds no word.
pub proof fn lemma_words_edges(s: Seq<char>, c: char)
    requires
        separator_char(c),
    ensures
        words(s.push(c)) == words(s),
        words(seq![c] + s) == words(s),
{
    let e = Seq::<char>::empty();
    lemma_words_split(s, c, e);
    assert(s.push(c) + e =~= s.push(c));
    assert(words(e) =~= Seq::<Seq<char>>::empty());
    assert(words(s) + words(e) =~= words(s));
    lemma_words_split(e, c, s);
    assert(e.push(c) + s =~= seq![c] + s);
    assert(words(e) + words(s) =~= words(s));
}

/// Appending a text appends its words.
pub proof fn lemma_words_of_all_push(texts: Seq<Seq<char>>, t: Seq<char>)
    ensures
        words_of_all(texts.push(t)) == words_of_all(texts) + words(t),
    decreases texts.len(),
{
    if texts.len() == 0 {
        assert(texts.push(t).drop_first() =~= Seq::<Seq<char>>::empty());
        assert(texts.push(t)[0] == t);
        assert(words_of_all(Seq::<Seq<char>>::empty()) == Seq::<Seq<char>>::empty());
        assert(words(t) + Seq::<Seq<char>>::empty() =~= words(t));
        assert(Seq::<Seq<char>>::empty() + words(t) =~= words(t));
    } else {
        lemma_words_of_all_push(texts.drop_first(), t);
        assert(texts.push(t).drop_first() =~= texts.drop_first().push(t));
        assert(texts.push(t)[0] == texts[0]);
        assert(words(texts[0]) + (words_of_all(texts.drop_first()) + words(t)) =~= (words(
            texts[0],
        ) + words_of_all(texts.drop_first())) + words(t));
    }
}

/// Taking the first text off a suffix.
pub proof fn lemma_words_of_all_suffix(texts: Seq<Seq<char>>, i: int)
    requires
        0 <= i < texts.len(),
    ensures
        words_of_all(texts.subrange(i, texts.len() as int)) == words(texts[i]) + words_of_all(
            texts.subrange(i + 1, texts.len() as int),
        ),
{
    assert(texts.subrange(i, texts.len() as int).drop_first() =~= texts.subrange(
        i + 1,
        texts.len() as int,
    ));
}

/// Whether `c` is white space (`char::is_whitespace`).
pub fn is_space(c: char) -> (r: bool)
    ensures
        r == space_char(c),
{
    ('\u{9}' <= c && c <= '\u{d}') || c == ' ' || c == '\u{85}' || c == '\u{a0}' || c == '\u{1680}'
        || ('\u{2000}' <= c && c <= '\u{200a}') || c == '\u{2028}' || c == '\u{2029}' || c
        == '\u{202f}' || c == '\u{205f}' || c == '\u{3000}'
}

/// Whether `c` ends a sentence.
pub fn is_terminator(c: char) -> (r: bool)
    ensures
        r == terminator_char(c),
{
    c == '.' || c == '?' || c == '!' || c == ';'
}

/// The views of a sequence of character vectors.
pub open spec fn views(v: Seq<Vec<char>>) -> Seq<Seq<char>> {
    v.map_values(|x: Vec<char>| x@)
}

/// Putting closed words in front commutes with closing the open word.
pub proof fn lemma_close_prefix(w: Seq<Seq<char>>, st: (Seq<Seq<char>>, Seq<char>))
    ensures
        close((w + st.0, st.1)) == w + close(st),
{
    if st.1.len() > 0 {
        assert((w + st.0).push(st.1) =~= w + st.0.push(st.1));
    }
}

/// The characters of `s`, in order.
pub fn chars_of(s: &str) -> (r: Vec<char>)
    ensures
        r@ == s@,
{
    let mut v: Vec<char> = Vec::new();
    for c in it: s.chars()
        invariant
            it.seq() == s@,
            v@ == it.seq().take(it.index()),
    {
        v.push(c);
        assert(v@ =~= it.seq().take(it.index() + 1));
    }
    assert(v@ =~= s@);
    v
}

/// Relies on `FromIterator<char>` for `String`: the string holds the characters in order.
#[verifier::external_body]
pub fn string_of(v: &Vec<char>) -> (r: String)
    ensures
        r@ == v@,
{
    v.iter().collect()
}

/// A copy of `a`.
pub fn copy_chars(a: &Vec<char>) -> (r: Vec<char>)
    ensures
        r@ == a@,
{
    let mut r: Vec<char> = Vec::new();
    let mut i: usize = 0;
    while i < a.len()
        invariant
            i <= a@.len(),
            r@ == a@.subrange(0, i as int),
        decreases a@.len() - i,
    {
        r.push(a[i]);
        i = i + 1;
        assert(r@ =~= a@.subrange(0, i as int));
    }
    assert(a@.subrange(0, i as int) =~= a@);
    r
}

/// `a`, a space, then `b`.
pub fn join_with_space(a: &Vec<char>, b: &Vec<char>) -> (r: Vec<char>)
    ensures
        r@ == a@.push(' ') + b@,
{
    let mut r = copy_chars(a);
    r.push(' ');
    let mut i: usize = 0;
    let ghost start = r@;
    while i < b.len()
        invariant
            i <= b@.len(),
            start == a@.push(' '),
            r@ == start + b@.subrange(0, i as int),
        decreases b@.len() - i,
    {
        r.push(b[i]);
        i = i + 1;
        assert(r@ =~= start + b@.subrange(0, i as int));
    }
    assert(b@.subrange(0, i as int) =~= b@);
    r
}

/// Splits `s` at each sentence terminator (when `at_terminators`) or at each white-space
/// character (otherwise), dropping the split characters and empty pieces.
pub fn split_pieces(s: &Vec<char>, at_terminators: bool) -> (r: Vec<Vec<char>>)
    ensures
        views(r@) == runs(s@, at_terminators),
        words_of_all(views(r@)) == words(s@),
        forall|k: int| 0 <= k < r@.len() ==> (#[trigger] r@[k])@.len() > 0,
        !at_terminators ==> forall|k: int| 0 <= k < r@.len() ==> no_space((#[trigger] r@[k])@),
{
    let mut out: Vec<Vec<char>> = Vec::new();
    let mut piece: Vec<char> = Vec::new();
    let mut i: usize = 0;
    while i < s.len()
        invariant
            i <= s@.len(),
            scan(s@.subrange(0, i as int)) == (words_of_all(views(out@)) + scan(piece@).0, scan(
                piece@,
            ).1),
            forall|k: int| 0 <= k < out@.len() ==> (#[trigger] out@[k])@.len() > 0,
            !at_terminators ==> forall|k: int| 0 <= k < out@.len() ==> no_space((#[trigger] out@[k])@),
            !at_terminators ==> no_space(piece@),
            scan_runs(s@.subrange(0, i as int), at_terminators) == (views(out@), piece@),
        decreases s@.len() - i,
    {
        let c = s[i];
        let ghost pre = s@.subrange(0, i as int);
        let ghost wo = words_of_all(views(out@));
        let ghost old_out = out@;
        assert(s@.subrange(0, i + 1).drop_last() =~= pre);
        assert(s@.subrange(0, i + 1).last() == c);
        proof {
            lemma_close_prefix(wo, scan(piece@));
        }
        let split = if at_terminators {
            is_terminator(c)
        } else {
            is_space(c)
        };
        if split {
            if piece.len() > 0 {
                proof {
                    lemma_words_of_all_push(views(out@), piece@);
                }
                let p = piece;
                out.push(p);
                assert(views(out@) =~= views(old_out).push(p@));
            } else {
                assert(words(piece@) =~= Seq::<Seq<char>>::empty());
            }
            piece = Vec::new();
            assert(words_of_all(views(out@)) + scan(piece@).0 =~= words_of_all(views(out@)));
            assert(scan_runs(s@.subrange(0, i + 1), at_terminators) == (views(out@), piece@));
        } else {
            let ghost old_piece = piece@;
            piece.push(c);
            assert(piece@.drop_last() =~= old_piece);
            assert(piece@.last() == c);
            if !at_terminators {
                assert forall|k: int| 0 <= k < piece@.len() implies !space_char(
                    #[trigger] piece@[k],
                ) by {
                    if k < old_piece.len() {
                        assert(piece@[k] == old_piece[k]);
                    }
                }
            }
        }
        i = i + 1;
    }
    assert(s@.subrange(0, i as int) =~= s@);
    proof {
        lemma_close_prefix(words_of_all(views(out@)), scan(piece@));
    }
    if piece.len() > 0 {
        proof {
            lemma_words_of_all_push(views(out@), piece@);
        }
        let ghost old_out = out@;
        let p = piece;
        out.push(p);
        assert(views(out@) =~= views(old_out).push(p@));
    } else {
        assert(words(piece@) =~= Seq::<Seq<char>>::empty());
        assert(words_of_all(views(out@)) + words(piece@) =~= words_of_all(views(out@)));
    }
    assert(views(out@) == runs(s@, at_terminators));
    out
}

/// `s` without its leading and trailing white space.
pub fn trim(s: &Vec<char>) -> (r: Vec<char>)
    ensures
        r@ == trimmed(s@),
        words(r@) == words(s@),
        r@.len() > 0 ==> !space_char(r@[0]) && !space_char(r@.last()),
        exists|lo: int, hi: int| 0 <= lo <= hi <= s@.len() && r@ == s@.subrange(lo, hi),
{
    let n = s.len();
    let mut lo: usize = 0;
    assert(s@.subrange(0, n as int) =~= s@);
    while lo < n && is_space(s[lo])
        invariant
            lo <= n == s@.len(),
            words(s@.subrange(lo as int, n as int)) == words(s@),
            trim_start(s@.subrange(lo as int, n as int)) == trim_start(s@),
        decreases n - lo,
    {
        proof {
            assert(s@.subrange(lo as int, n as int).drop_first() =~= s@.subrange(lo + 1, n as int));
            let rest = s@.subrange(lo + 1, n as int);
            assert(seq![s@[lo as int]] + rest =~= s@.subrange(lo as int, n as int));
            lemma_words_edges(rest, s@[lo as int]);
        }
        lo = lo + 1;
    }
    assert(trim_start(s@) == s@.subrange(lo as int, n as int));
    let mut hi: usize = n;
    while hi > lo && is_space(s[hi - 1])
        invariant
            lo <= hi <= n == s@.len(),
            lo < hi ==> !space_char(s@[lo as int]),
            words(s@.subrange(lo as int, hi as int)) == words(s@),
            trim_start(s@) == s@.subrange(lo as int, n as int),
            trim_end(s@.subrange(lo as int, hi as int)) == trimmed(s@),
        decreases hi,
    {
        proof {
            assert(s@.subrange(lo as int, hi as int).drop_last() =~= s@.subrange(lo as int, hi - 1));
            let rest = s@.subrange(lo as int, hi - 1);
            assert(rest.push(s@[hi - 1]) =~= s@.subrange(lo as int, hi as int));
            lemma_words_edges(rest, s@[hi - 1]);
        }
        hi = hi - 1;
    }
    assert(trim_end(s@.subrange(lo as int, hi as int)) == s@.subrange(lo as int, hi as int));
    let mut r: Vec<char> = Vec::new();
    let mut j: usize = lo;
    while j < hi
        invariant
            lo <= j <= hi <= n == s@.len(),
            trimmed(s@) == s@.subrange(lo as int, hi as int),
            r@ == s@.subrange(lo as int, j as int),
        decreases hi - j,
    {
        r.push(s[j]);
        j = j + 1;
        assert(r@ =~= s@.subrange(lo as int, j as int));
    }
    assert(r@.len() > 0 ==> r@[0] == s@[lo as int] && r@.last() == s@[hi - 1]);
    r
}

/// The sentences of `s`: the text between sentence terminators, trimmed, each ended with
/// `.`; sentences with nothing but white space are dropped.
pub fn split_sentences(s: &Vec<char>) -> (r: Vec<Vec<char>>)
    ensures
        views(r@) == sentences_of(s@),
        words_of_all(views(r@)) == words(s@),
        forall|k: int|
            0 <= k < r@.len() ==> (#[trigger] r@[k])@.len() > 1 && r@[k]@.last() == '.',
{
    let pieces = split_pieces(s, true);
    let mut out: Vec<Vec<char>> = Vec::new();
    let mut k: usize = 0;
    while k < pieces.len()
        invariant
            k <= pieces@.len(),
            words_of_all(views(pieces@)) == words(s@),
            words_of_all(views(out@)) == words_of_all(views(pieces@.subrange(0, k as int))),
            views(pieces@) == runs(s@, true),
            views(out@) == sentences_from(views(pieces@).subrange(0, k as int)),
            forall|j: int|
                0 <= j < out@.len() ==> (#[trigger] out@[j])@.len() > 1 && out@[j]@.last() == '.',
        decreases pieces@.len() - k,
    {
        let mut t = trim(&pieces[k]);
        proof {
            assert(views(pieces@).subrange(0, k + 1).drop_last() =~= views(pieces@).subrange(0, k as int));
            assert(views(pieces@).subrange(0, k + 1).last() == pieces@[k as int]@);
            lemma_words_of_all_push(views(pieces@.subrange(0, k as int)), pieces@[k as int]@);
            assert(views(pieces@.subrange(0, k + 1)) =~= views(pieces@.subrange(0, k as int)).push(
                pieces@[k as int]@,
            ));
        }
        if t.len() > 0 {
            let ghost before = t@;
            t.push('.');
            proof {
                lemma_words_edges(before, '.');
                lemma_words_of_all_push(views(out@), t@);
            }
            let ghost old_out = out@;
            out.push(t);
            assert(views(out@) =~= views(old_out).push(out@.last()@));
        } else {
            assert(words(t@) =~= Seq::<Seq<char>>::empty());
            assert(words_of_all(views(out@)) + words(t@) =~= words_of_all(views(out@)));
        }
        k = k + 1;
    }
    assert(pieces@.subrange(0, k as int) =~= pieces@);
    assert(views(pieces@).subrange(0, k as int) =~= views(pieces@));
    out
}

} // verus!
