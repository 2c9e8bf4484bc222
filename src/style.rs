use vstd::prelude::*;

use crate::text::{chars_of, copy_chars, views};

verus! {

/// Pieces of `s` between occurrences of `sep`, empty ones included.
pub open spec fn split_on(s: Seq<char>, sep: char) -> Seq<Seq<char>>
    decreases s.len(),
{
    if s.len() == 0 {
        seq![Seq::empty()]
    } else {
        let p = split_on(s.drop_last(), sep);
        if s.last() == sep {
            p.push(Seq::empty())
        } else {
            p.update(p.len() - 1, p.last().push(s.last()))
        }
    }
}

/// Position of the first occurrence of `c` in `s`.
pub open spec fn first_index(s: Seq<char>, c: char) -> Option<int> {
    if exists|i: int| 0 <= i < s.len() && s[i] == c {
        Some(choose|i: int| 0 <= i < s.len() && s[i] == c && forall|j: int| 0 <= j < i ==> s[j] != c)
    } else {
        None
    }
}

/// `s` is a non-empty string of ASCII decimal digits.
pub open spec fn all_digits(s: Seq<char>) -> bool {
    s.len() > 0 && forall|i: int| 0 <= i < s.len() ==> '0' <= #[trigger] s[i] <= '9'
}

/// The number that the decimal digits `s` write.
pub open spec fn digits_value(s: Seq<char>) -> nat
    decreases s.len(),
{
    if s.len() == 0 {
        0
    } else {
        10 * digits_value(s.drop_last()) + (s.last() as nat - '0' as nat) as nat
    }
}

/// The weight, in tenths, that a blend segment `name.digits` gives to `name`; `None` when
/// the segment has no `.` or its weight is not a decimal number that fits in `u64`.
pub open spec fn segment_term(seg: Seq<char>) -> Option<(Seq<char>, nat)> {
    match first_index(seg, '.') {
        Some(i) => {
            let digits = seg.subrange(i + 1, seg.len() as int);
            if all_digits(digits) && digits_value(digits) <= u64::MAX {
                Some((seg.subrange(0, i), digits_value(digits)))
            } else {
                None
            }
        },
        None => None,
    }
}

/// Position of `name` among `names`.
pub open spec fn index_of(names: Seq<Seq<char>>, name: Seq<char>) -> Option<int> {
    if exists|i: int| 0 <= i < names.len() && names[i] == name {
        Some(choose|i: int| 0 <= i < names.len() && names[i] == name)
    } else {
        None
    }
}

/// The weighted styles of a blend: each segment with a weight whose name is in the table,
/// in order; the others contribute nothing.
pub open spec fn blend_terms(names: Seq<Seq<char>>, segs: Seq<Seq<char>>) -> Seq<(int, nat)>
    decreases segs.len(),
{
    if segs.len() == 0 {
        Seq::empty()
    } else {
        let rest = blend_terms(names, segs.drop_last());
        match segment_term(segs.last()) {
            Some((name, w)) => match index_of(names, name) {
                Some(i) => rest.push((i, w)),
                None => rest,
            },
            None => rest,
        }
    }
}

/// Why a style specification cannot be resolved.
#[derive(Debug, PartialEq, Eq, Structural, Clone, Copy)]
pub enum StyleError {
    /// A single style name that the table does not hold.
    UnknownStyle,
}

/// How to build a conditioning vector from the style table.
#[derive(Debug)]
pub enum StyleMix {
    /// The vector of one style, as it stands.
    Single(usize),
    /// The sum of the listed styles' vectors, each scaled by its weight in tenths, starting
    /// from zero.
    Blend(Vec<(usize, u64)>),
}

/// What a style mix denotes.
pub enum MixModel {
    Single(int),
    Blend(Seq<(int, nat)>),
}

impl StyleMix {
    pub open spec fn model(&self) -> MixModel {
        match self {
            StyleMix::Single(i) => MixModel::Single(*i as int),
            StyleMix::Blend(v) => MixModel::Blend(v@.map_values(|t: (usize, u64)| (t.0 as int, t.1 as nat))),
        }
    }
}

/// What resolving `spec` against a table with style names `names` gives.
pub open spec fn resolve_model(names: Seq<Seq<char>>, spec: Seq<char>) -> Result<MixModel, StyleError> {
    if spec.contains('+') {
        Ok(MixModel::Blend(blend_terms(names, split_on(spec, '+'))))
    } else {
        match index_of(names, spec) {
            Some(i) => Ok(MixModel::Single(i)),
            None => Err(StyleError::UnknownStyle),
        }
    }
}

/// Style table: names, each unique, with one conditioning vector each.
pub struct StyleTable<V> {
    names: Vec<Vec<char>>,
    vectors: Vec<V>,
}

impl<V> StyleTable<V> {
    /// The style names, in order of first insertion.
    pub closed spec fn names(&self) -> Seq<Seq<char>> {
        views(self.names@)
    }

    /// The vectors, by position.
    pub closed spec fn vectors(&self) -> Seq<V> {
        self.vectors@
    }

    /// Names are unique and each has a vector.
    pub closed spec fn wf(&self) -> bool {
        &&& self.names@.len() == self.vectors@.len()
        &&& forall|i: int, j: int|
            0 <= i < j < self.names@.len() ==> (#[trigger] self.names@[i])@ != (
            #[trigger] self.names@[j])@
    }

    /// An empty table.
    pub fn new() -> (r: Self)
        ensures
            r.wf(),
            r.names() == Seq::<Seq<char>>::empty(),
            r.vectors() == Seq::<V>::empty(),
    {
        let r = StyleTable { names: Vec::new(), vectors: Vec::new() };
        assert(r.names() =~= Seq::<Seq<char>>::empty());
        r
    }

    /// Number of styles.
    pub fn len(&self) -> (r: usize)
        requires
            self.wf(),
        ensures
            r == self.names().len(),
    {
        self.names.len()
    }

    /// Position of the style named `name`.
    fn find(&self, name: &Vec<char>) -> (r: Option<usize>)
        requires
            self.wf(),
        ensures
            r matches Some(i) ==> index_of(self.names(), name@) == Some(i as int),
            r is None ==> index_of(self.names(), name@) is None,
    {
        let mut i: usize = 0;
        while i < self.names.len()
            invariant
                self.wf(),
                i <= self.names@.len(),
                forall|j: int| 0 <= j < i ==> self.names()[j] != name@,
            decreases self.names@.len() - i,
        {
            if same_chars(&self.names[i], name) {
                proof {
                    assert(self.names()[i as int] == name@);
                    let k = choose|k: int| 0 <= k < self.names().len() && self.names()[k] == name@;
                    assert(self.names()[k] == self.names@[k]@);
                    if k != i {
                        if k < i {
                            assert(self.names@[k]@ != self.names@[i as int]@);
                        } else {
                            assert(self.names@[i as int]@ != self.names@[k]@);
                        }
                    }
                }
                return Some(i);
            }
            i = i + 1;
        }
        None
    }

    /// The vector of the style at position `i`.
    pub fn get(&self, i: usize) -> (r: &V)
        requires
            self.wf(),
            i < self.names().len(),
        ensures
            *r == self.vectors()[i as int],
    {
        &self.vectors[i]
    }

    /// Sets the vector of style `name`, adding the name at the end if it is new.
    pub fn insert(&mut self, name: &str, vector: V)
        requires
            old(self).wf(),
        ensures
            final(self).wf(),
            match index_of(old(self).names(), name@) {
                Some(i) => final(self).names() == old(self).names() && final(self).vectors()
                    == old(self).vectors().update(i, vector),
                None => {
                    &&& final(self).names() == old(self).names().push(name@)
                    &&& final(self).vectors() == old(self).vectors().push(vector)
                },
            },
    {
        let key = chars_of(name);
        match self.find(&key) {
            Some(i) => {
                self.vectors.set(i, vector);
            },
            None => {
                let ghost old_names = self.names@;
                self.names.push(key);
                self.vectors.push(vector);
                assert(views(self.names@) =~= views(old_names).push(name@));
                assert forall|i: int, j: int|
                    0 <= i < j < self.names@.len() implies (#[trigger] self.names@[i])@ != (
                    #[trigger] self.names@[j])@ by {
                    if j == old_names.len() {
                        assert(views(old_names)[i] == old_names[i]@);
                    }
                }
            },
        }
    }

    /// Resolves a style specification: a bare name picks that style, and
    /// `name1.w1+name2.w2+...` blends styles with weights in tenths.
    pub fn resolve(&self, spec: &str) -> (r: Result<StyleMix, StyleError>)
        requires
            self.wf(),
        ensures
            r matches Ok(m) ==> resolve_model(self.names(), spec@) == Ok::<MixModel, StyleError>(m.model()),
            r matches Err(e) ==> resolve_model(self.names(), spec@) == Err::<MixModel, StyleError>(e),
    {
        let s = chars_of(spec);
        let segs = split_at_char(&s, '+');
        if segs.len() == 1 {
            assert(!spec@.contains('+'));
            match self.find(&s) {
                Some(i) => Ok(StyleMix::Single(i)),
                None => Err(StyleError::UnknownStyle),
            }
        } else {
            let terms = self.blend(&segs);
            Ok(StyleMix::Blend(terms))
        }
    }

    fn blend(&self, segs: &Vec<Vec<char>>) -> (r: Vec<(usize, u64)>)
        requires
            self.wf(),
        ensures
            r@.map_values(|t: (usize, u64)| (t.0 as int, t.1 as nat)) == blend_terms(
                self.names(),
                views(segs@),
            ),
    {
        let mut out: Vec<(usize, u64)> = Vec::new();
        let mut k: usize = 0;
        while k < segs.len()
            invariant
                self.wf(),
                k <= segs@.len(),
                out@.map_values(|t: (usize, u64)| (t.0 as int, t.1 as nat)) == blend_terms(
                    self.names(),
                    views(segs@).subrange(0, k as int),
                ),
            decreases segs@.len() - k,
        {
            let ghost pre = views(segs@).subrange(0, k as int);
            let ghost cur = views(segs@).subrange(0, k + 1);
            assert(cur.drop_last() =~= pre);
            assert(cur.last() == segs@[k as int]@);
            let ghost old_out = out@;
            match parse_segment(&segs[k]) {
                Some((name, w)) => match self.find(&name) {
                    Some(i) => {
                        out.push((i, w));
                        assert(out@.map_values(|t: (usize, u64)| (t.0 as int, t.1 as nat))
                            =~= old_out.map_values(|t: (usize, u64)| (t.0 as int, t.1 as nat)).push((i as int, w as nat)));
                    },
                    None => {},
                },
                None => {},
            }
            k = k + 1;
        }
        assert(views(segs@).subrange(0, k as int) =~= views(segs@));
        out
    }
}

/// Whether `a` and `b` hold the same characters.
fn same_chars(a: &Vec<char>, b: &Vec<char>) -> (r: bool)
    ensures
        r == (a@ == b@),
{
    if a.len() != b.len() {
        return false;
    }
    let mut i: usize = 0;
    while i < a.len()
        invariant
            a@.len() == b@.len(),
            i <= a@.len(),
            forall|j: int| 0 <= j < i ==> a@[j] == b@[j],
        decreases a@.len() - i,
    {
        if a[i] != b[i] {
            return false;
        }
        i = i + 1;
    }
    assert(a@ =~= b@);
    true
}

/// Splits `s` at each `sep`, keeping empty pieces.
pub fn split_at_char(s: &Vec<char>, sep: char) -> (r: Vec<Vec<char>>)
    ensures
        views(r@) == split_on(s@, sep),
        r@.len() == 1 <==> !s@.contains(sep),
{
    let mut out: Vec<Vec<char>> = Vec::new();
    let mut piece: Vec<char> = Vec::new();
    let mut i: usize = 0;
    while i < s.len()
        invariant
            i <= s@.len(),
            views(out@).push(piece@) == split_on(s@.subrange(0, i as int), sep),
            out@.len() == 0 <==> !s@.subrange(0, i as int).contains(sep),
        decreases s@.len() - i,
    {
        let c = s[i];
        let ghost pre = s@.subrange(0, i as int);
        let ghost now = s@.subrange(0, i + 1);
        assert(now.drop_last() =~= pre);
        assert(now.last() == c);
        let ghost old_out = out@;
        let ghost old_piece = piece@;
        if c == sep {
            let p = copy_chars(&piece);
            out.push(p);
            piece = Vec::new();
            assert(views(out@) =~= views(old_out).push(old_piece));
            assert(views(out@).push(piece@) =~= views(old_out).push(old_piece).push(Seq::empty()));
            assert(now.contains(sep)) by {
                assert(now[i as int] == sep);
            }
        } else {
            piece.push(c);
            assert(views(out@).push(piece@) =~= views(old_out).push(old_piece).update(
                old_out.len() as int,
                old_piece.push(c),
            ));
            assert(now.contains(sep) <==> pre.contains(sep)) by {
                if now.contains(sep) {
                    let j = choose|j: int| 0 <= j < now.len() && now[j] == sep;
                    assert(pre[j] == sep);
                }
                if pre.contains(sep) {
                    let j = choose|j: int| 0 <= j < pre.len() && pre[j] == sep;
                    assert(now[j] == sep);
                }
            }
        }
        i = i + 1;
    }
    assert(s@.subrange(0, i as int) =~= s@);
    let ghost old_out = out@;
    out.push(piece);
    assert(views(out@) =~= views(old_out).push(out@.last()@));
    out
}

/// Reads the name and the weight in tenths of a blend segment `name.digits`.
fn parse_segment(seg: &Vec<char>) -> (r: Option<(Vec<char>, u64)>)
    ensures
        r matches Some((name, w)) ==> segment_term(seg@) == Some((name@, w as nat)),
        r is None ==> segment_term(seg@) is None,
{
    let mut i: usize = 0;
    while i < seg.len() && seg[i] != '.'
        invariant
            i <= seg@.len(),
            forall|j: int| 0 <= j < i ==> seg@[j] != '.',
        decreases seg@.len() - i,
    {
        i = i + 1;
    }
    if i == seg.len() {
        return None;
    }
    assert(first_index(seg@, '.') == Some(i as int)) by {
        assert(seg@[i as int] == '.');
        let k = choose|k: int| 0 <= k < seg@.len() && seg@[k] == '.' && forall|j: int| 0 <= j < k ==> seg@[j] != '.';
        if k < i {
        } else if k > i {
            assert(seg@[i as int] != '.');
        }
    }
    let mut name: Vec<char> = Vec::new();
    let mut j: usize = 0;
    while j < i
        invariant
            j <= i < seg@.len(),
            first_index(seg@, '.') == Some(i as int),
            name@ == seg@.subrange(0, j as int),
        decreases i - j,
    {
        name.push(seg[j]);
        j = j + 1;
        assert(name@ =~= seg@.subrange(0, j as int));
    }
    let mut value: u64 = 0;
    let mut k: usize = i + 1;
    if k == seg.len() {
        return None;
    }
    while k < seg.len()
        invariant
            i + 1 <= k <= seg@.len(),
            first_index(seg@, '.') == Some(i as int),
            all_digits(seg@.subrange(i + 1, k as int)) || k == i + 1,
            value as nat == digits_value(seg@.subrange(i + 1, k as int)),
        decreases seg@.len() - k,
    {
        let c = seg[k];
        let ghost pre = seg@.subrange(i + 1, k as int);
        let ghost now = seg@.subrange(i + 1, k + 1);
        assert(now.drop_last() =~= pre);
        assert(now.last() == c);
        if c < '0' || c > '9' {
            assert(!all_digits(seg@.subrange(i + 1, seg@.len() as int))) by {
                assert(seg@.subrange(i + 1, seg@.len() as int)[k - (i + 1)] == c);
            }
            return None;
        }
        let d = (c as u32 - '0' as u32) as u64;
        if value > (u64::MAX - d) / 10 {
            proof {
                let full = seg@.subrange(i + 1, seg@.len() as int);
                if all_digits(full) {
                    lemma_digits_prefix_grows(full, (k + 1 - (i + 1)) as int);
                    assert(full.subrange(0, k + 1 - (i + 1)) =~= now);
                    assert(10 * (value as nat) + d > u64::MAX) by (nonlinear_arith)
                        requires
                            value > (u64::MAX - d) / 10,
                            d <= 9,
                    ;
                }
            }
            return None;
        }
        value = value * 10 + d;
        k = k + 1;
        assert forall|m: int| 0 <= m < now.len() implies '0' <= #[trigger] now[m] <= '9' by {
            if m < pre.len() {
                assert(now[m] == pre[m]);
            }
        }
    }
    assert(seg@.subrange(i + 1, k as int) =~= seg@.subrange(i + 1, seg@.len() as int));
    Some((name, value))
}

/// A longer digit string is worth at least as much as its prefix.
proof fn lemma_digits_prefix_grows(s: Seq<char>, n: int)
    requires
        0 <= n <= s.len(),
        forall|i: int| 0 <= i < s.len() ==> '0' <= #[trigger] s[i] <= '9',
    ensures
        digits_value(s.subrange(0, n)) <= digits_value(s),
    decreases s.len(),
{
    if n < s.len() {
        let t = s.drop_last();
        assert forall|i: int| 0 <= i < t.len() implies '0' <= #[trigger] t[i] <= '9' by {
            assert(t[i] == s[i]);
        }
        lemma_digits_prefix_grows(t, n);
        assert(t.subrange(0, n) =~= s.subrange(0, n));
    } else {
        assert(s.subrange(0, n) =~= s);
    }
}

/// Resolution depends on the specification and the table's names alone: resolving the same
/// specification against tables with the same names gives the same mix.
pub proof fn lemma_resolve_deterministic<V>(t1: &StyleTable<V>, t2: &StyleTable<V>, spec: Seq<char>)
    requires
        t1.names() == t2.names(),
    ensures
        resolve_model(t1.names(), spec) == resolve_model(t2.names(), spec),
{
}

/// A single style name that the table does not hold is an error.
pub proof fn lemma_unknown_single_fails(names: Seq<Seq<char>>, spec: Seq<char>)
    requires
        !spec.contains('+'),
        index_of(names, spec) is None,
    ensures
        resolve_model(names, spec) == Err::<MixModel, StyleError>(StyleError::UnknownStyle),
{
}

/// A blend never fails, whatever names it holds.
pub proof fn lemma_blend_never_fails(names: Seq<Seq<char>>, spec: Seq<char>)
    requires
        spec.contains('+'),
    ensures
        resolve_model(names, spec) is Ok,
{
}

/// A blend segment naming a style that the table does not hold contributes nothing.
pub proof fn lemma_unknown_in_blend_adds_nothing(
    names: Seq<Seq<char>>,
    segs: Seq<Seq<char>>,
    seg: Seq<char>,
)
    requires
        segment_term(seg) matches Some((name, w)) && index_of(names, name) is None,
    ensures
        blend_terms(names, segs.push(seg)) == blend_terms(names, segs),
{
    assert(segs.push(seg).drop_last() =~= segs);
}

} // verus!
