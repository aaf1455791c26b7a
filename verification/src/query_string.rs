use vstd::prelude::*;

use crate::text::chars_string;
use crate::text::lemma_dec_chars_val;
use crate::text::dec_chars;
use crate::text::index_chars_val;
use crate::text::is_index_chars;
use crate::text::parse_index;
use crate::text::push_dec;
use crate::text::str_chars;

verus! {

/// Ghost model of a single path segment: an array index or a field key.
#[verifier::ext_equal]
pub enum SegModel {
    Index(int),
    Key(Seq<char>),
}

/// A part of a query string: either an index for arrays or a key to access
/// a named value.
#[derive(Debug)]
pub enum QueryStringPart {
    Index(usize),
    Key(String),
}

impl View for QueryStringPart {
    type V = SegModel;

    open spec fn view(&self) -> SegModel {
        match self {
            QueryStringPart::Index(i) => SegModel::Index(*i as int),
            QueryStringPart::Key(k) => SegModel::Key(k@),
        }
    }
}

impl Clone for QueryStringPart {
    fn clone(&self) -> (r: Self)
        ensures
            r@ == self@,
    {
        match self {
            QueryStringPart::Index(i) => QueryStringPart::Index(*i),
            QueryStringPart::Key(k) => QueryStringPart::Key(k.clone()),
        }
    }
}

impl vstd::std_specs::cmp::PartialEqSpecImpl for QueryStringPart {
    open spec fn obeys_eq_spec() -> bool {
        true
    }

    open spec fn eq_spec(&self, other: &Self) -> bool {
        self@ == other@
    }
}

impl PartialEq for QueryStringPart {
    fn eq(&self, other: &Self) -> (r: bool) {
        match (self, other) {
            (QueryStringPart::Index(a), QueryStringPart::Index(b)) => a == b,
            (QueryStringPart::Key(a), QueryStringPart::Key(b)) => <String as PartialEq>::eq(a, b),
            _ => false,
        }
    }
}

/// The largest number of segments a path may hold.
pub const MAX_DEPTH: usize = 16;

/// Returns the suffix of `a` after the prefix `b`, if `b` is an
/// element-wise prefix of `a`.
pub open spec fn extends_spec(a: Seq<SegModel>, b: Seq<SegModel>) -> Option<Seq<SegModel>> {
    if b.len() <= a.len() && a.subrange(0, b.len() as int) == b {
        Some(a.subrange(b.len() as int, a.len() as int))
    } else {
        None
    }
}

/// Stripping a prefix undoes joining: for any paths `a` and `b`, the
/// path `a + b` extends `a`, and the suffix it yields is exactly `b`.
pub proof fn lemma_extends_join(a: Seq<SegModel>, b: Seq<SegModel>)
    ensures
        extends_spec(a + b, a) == Some(b),
{
    assert((a + b).subrange(0, a.len() as int) =~= a);
    assert((a + b).subrange(a.len() as int, (a + b).len() as int) =~= b);
}

/// Used to address a form data element, rendered in bracket notation such
/// as `person[addresses][0][city]`.
/// Note that a `QueryString` supports a maximal depth of [`MAX_DEPTH`]
/// segments; growing a path beyond that bound is a precondition violation.
#[derive(Debug)]
pub struct QueryString {
    parts: Vec<QueryStringPart>,
}

impl View for QueryString {
    type V = Seq<SegModel>;

    closed spec fn view(&self) -> Seq<SegModel> {
        Seq::new(self.parts@.len(), |i: int| self.parts@[i]@)
    }
}

impl vstd::std_specs::cmp::PartialEqSpecImpl for QueryString {
    open spec fn obeys_eq_spec() -> bool {
        true
    }

    open spec fn eq_spec(&self, other: &Self) -> bool {
        self@ == other@
    }
}

impl PartialEq for QueryString {
    fn eq(&self, other: &Self) -> (r: bool) {
        if self.parts.len() != other.parts.len() {
            proof {
                assert(self@.len() != other@.len());
            }
            return false;
        }
        let n: usize = self.parts.len();
        for i in 0..n
            invariant
                n == self.parts@.len() == other.parts@.len(),
                forall|k: int| 0 <= k < i ==> self@[k] == other@[k],
        {
            if !(self.parts[i] == other.parts[i]) {
                proof {
                    assert(self@[i as int] != other@[i as int]);
                }
                return false;
            }
        }
        proof {
            assert(self@ =~= other@);
        }
        true
    }
}

impl Clone for QueryString {
    fn clone(&self) -> (r: Self)
        ensures
            r@ == self@,
    {
        let mut parts: Vec<QueryStringPart> = Vec::new();
        let n: usize = self.parts.len();
        for i in 0..n
            invariant
                n == self.parts@.len(),
                parts@.len() == i,
                forall|k: int| 0 <= k < i ==> parts@[k]@ == self@[k],
        {
            parts.push(self.parts[i].clone());
        }
        let r = QueryString { parts };
        proof {
            assert(r@ =~= self@);
        }
        r
    }
}

impl Default for QueryString {
    fn default() -> (r: Self)
        ensures
            r@ == Seq::<SegModel>::empty(),
    {
        QueryString::new()
    }
}

impl QueryString {
    /// The empty path.
    pub fn new() -> (r: Self)
        ensures
            r@ == Seq::<SegModel>::empty(),
    {
        let r = QueryString { parts: Vec::new() };
        proof {
            assert(r@ =~= Seq::<SegModel>::empty());
        }
        r
    }

    /// Appends one segment without the depth bound; only for rebuilding
    /// paths that already exist in a tree.
    pub(crate) fn push_part(&mut self, part: QueryStringPart)
        ensures
            final(self)@ == old(self)@.push(part@),
    {
        let ghost orig = self@;
        self.parts.push(part);
        proof {
            assert(self@ =~= orig.push(self.parts@.last()@));
        }
    }

    /// Removes the last segment.
    pub(crate) fn pop_part(&mut self)
        requires
            old(self)@.len() > 0,
        ensures
            final(self)@ == old(self)@.drop_last(),
    {
        let ghost orig = self@;
        self.parts.pop();
        proof {
            assert(self@ =~= orig.drop_last());
        }
    }

    /// The segment at position `i`.
    pub fn part(&self, i: usize) -> (r: &QueryStringPart)
        requires
            i < self@.len(),
        ensures
            r@ == self@[i as int],
    {
        &self.parts[i]
    }

    /// The number of segments of this path.
    pub fn len(&self) -> (r: usize)
        ensures
            r == self@.len(),
    {
        self.parts.len()
    }

    pub fn is_empty(&self) -> (r: bool)
        ensures
            r == (self@.len() == 0),
    {
        self.parts.len() == 0
    }

    /// Appends one segment to this path.
    pub fn add(self, part: QueryStringPart) -> (r: Self)
        requires
            self@.len() < MAX_DEPTH,
        ensures
            r@ == self@.push(part@),
    {
        let ghost orig = self@;
        let mut parts = self.parts;
        parts.push(part);
        let r = QueryString { parts };
        proof {
            assert(r@ =~= orig.push(part@));
        }
        r
    }

    /// Appends an index segment to this path.
    pub fn add_index(self, index: usize) -> (r: Self)
        requires
            self@.len() < MAX_DEPTH,
        ensures
            r@ == self@.push(SegModel::Index(index as int)),
    {
        self.add(QueryStringPart::Index(index))
    }

    /// Appends a key segment to this path.
    pub fn add_key(self, key: &str) -> (r: Self)
        requires
            self@.len() < MAX_DEPTH,
        ensures
            r@ == self@.push(SegModel::Key(key@)),
    {
        self.add(QueryStringPart::Key(key.to_owned()))
    }

    /// Joins two paths.
    pub fn join(self, other: Self) -> (r: Self)
        requires
            self@.len() + other@.len() <= MAX_DEPTH,
        ensures
            r@ == self@ + other@,
    {
        let ghost a = self@;
        let ghost b = other@;
        let mut parts = self.parts;
        let mut rest = other.parts;
        parts.append(&mut rest);
        let r = QueryString { parts };
        proof {
            assert(r@ =~= a + b);
        }
        r
    }

    /// The first segment of this path, if any.
    pub fn first(&self) -> (r: Option<QueryStringPart>)
        ensures
            self@.len() == 0 ==> r is None,
            self@.len() > 0 ==> (r matches Some(p) && p@ == self@[0]),
    {
        if self.parts.len() == 0 {
            None
        } else {
            Some(self.parts[0].clone())
        }
    }

    /// Removes the last segment of this path.
    pub fn remove(self) -> (r: Self)
        requires
            self@.len() > 0,
        ensures
            r@ == self@.drop_last(),
    {
        let ghost orig = self@;
        let mut parts = self.parts;
        parts.pop();
        let r = QueryString { parts };
        proof {
            assert(r@ =~= orig.drop_last());
        }
        r
    }

    /// Removes the first segment of this path.
    pub fn remove_first(self) -> (r: Self)
        requires
            self@.len() > 0,
        ensures
            r@ == self@.drop_first(),
    {
        let ghost orig = self@;
        let mut parts = self.parts;
        parts.remove(0);
        let r = QueryString { parts };
        proof {
            assert(r@ =~= orig.drop_first());
        }
        r
    }

    /// Checks whether this path extends the other path, and if so returns
    /// the remaining suffix.
    pub fn extends(&self, other: &Self) -> (r: Option<QueryString>)
        ensures
            (r is Some) == (extends_spec(self@, other@) is Some),
            r matches Some(rest) ==> (extends_spec(self@, other@) matches Some(s) && rest@ == s),
    {
        let m: usize = other.parts.len();
        let n: usize = self.parts.len();
        if n < m {
            return None;
        }
        for i in 0..m
            invariant
                m == other.parts@.len(),
                n == self.parts@.len(),
                m <= n,
                forall|k: int| 0 <= k < i ==> self@[k] == other@[k],
        {
            if !(self.parts[i] == other.parts[i]) {
                proof {
                    assert(self@.subrange(0, m as int)[i as int] != other@[i as int]);
                }
                return None;
            }
        }
        let mut rest: Vec<QueryStringPart> = Vec::new();
        let mut j: usize = m;
        while j < n
            invariant
                m == other.parts@.len(),
                n == self.parts@.len(),
                m <= j <= n,
                rest@.len() == j - m,
                forall|k: int| 0 <= k < j - m ==> rest@[k]@ == self@[m + k],
            decreases n - j,
        {
            rest.push(self.parts[j].clone());
            j = j + 1;
        }
        let r = QueryString { parts: rest };
        proof {
            assert(self@.subrange(0, m as int) =~= other@);
            assert(r@ =~= self@.subrange(m as int, n as int));
        }
        Some(r)
    }
}

// ---------------------------------------------------------------------------
// Bracket notation
// ---------------------------------------------------------------------------

/// The characters of one segment: the decimal numeral of an index, or the
/// key itself.
pub open spec fn seg_chars(s: SegModel) -> Seq<char> {
    match s {
        SegModel::Index(i) => dec_chars(i),
        SegModel::Key(k) => k,
    }
}

/// The characters of a whole path in bracket notation:
/// `first[second][third]`.
pub open spec fn path_chars(p: Seq<SegModel>) -> Seq<char>
    decreases p.len(),
{
    if p.len() == 0 {
        Seq::empty()
    } else if p.len() == 1 {
        seg_chars(p[0])
    } else {
        path_chars(p.drop_last()) + seq!['['] + seg_chars(p.last()) + seq![']']
    }
}

/// How one raw segment is read back: as an index if it parses as one,
/// else as a key.
pub open spec fn seg_of_chars(p: Seq<char>) -> SegModel {
    if is_index_chars(p) {
        SegModel::Index(index_chars_val(p))
    } else {
        SegModel::Key(p)
    }
}

/// One step of splitting bracket notation into raw segments: `[` opens a
/// new segment, `]` is skipped, any other character extends the last open
/// segment (opening one if none exists yet).
pub open spec fn split_step(acc: Seq<Seq<char>>, c: char) -> Seq<Seq<char>> {
    if c == '[' {
        acc.push(Seq::empty())
    } else if c == ']' {
        acc
    } else if acc.len() == 0 {
        acc.push(seq![c])
    } else {
        acc.update(acc.len() - 1, acc.last().push(c))
    }
}

pub open spec fn split_rec(s: Seq<char>, acc: Seq<Seq<char>>) -> Seq<Seq<char>>
    decreases s.len(),
{
    if s.len() == 0 {
        acc
    } else {
        split_rec(s.drop_first(), split_step(acc, s[0]))
    }
}

/// The raw segments of a path in bracket notation.
pub open spec fn split_parts(s: Seq<char>) -> Seq<Seq<char>> {
    split_rec(s, Seq::empty())
}

/// The path denoted by a string in bracket notation.
pub open spec fn parse_path(s: Seq<char>) -> Seq<SegModel> {
    split_parts(s).map_values(|p: Seq<char>| seg_of_chars(p))
}

/// Ghost contents of a vector of raw segments.
pub open spec fn chunks_model(v: Seq<Vec<char>>) -> Seq<Seq<char>> {
    Seq::new(v.len(), |i: int| v[i]@)
}

impl QueryString {
    /// Renders this path in bracket notation.
    pub fn to_string(&self) -> (r: String)
        ensures
            r@ == path_chars(self@),
    {
        let mut out: Vec<char> = Vec::new();
        let n: usize = self.parts.len();
        for i in 0..n
            invariant
                n == self.parts@.len(),
                out@ == path_chars(self@.take(i as int)),
        {
            proof {
                assert(self@.take(i + 1).drop_last() =~= self@.take(i as int));
                assert(self@.take(i + 1).last() == self@[i as int]);
                assert(self@[i as int] == self.parts@[i as int]@);
            }
            if i > 0 {
                out.push('[');
            }
            match &self.parts[i] {
                QueryStringPart::Index(idx) => {
                    push_dec(*idx, &mut out);
                },
                QueryStringPart::Key(k) => {
                    let mut kc = str_chars(k.as_str());
                    out.append(&mut kc);
                },
            }
            if i > 0 {
                out.push(']');
            }
            proof {
                if i == 0 {
                    assert(out@ =~= path_chars(self@.take(i + 1)));
                } else {
                    assert(out@ =~= path_chars(self@.take(i as int)) + seq!['['] + seg_chars(
                        self@[i as int]) + seq![']']);
                    assert(out@ =~= path_chars(self@.take(i + 1)));
                }
            }
        }
        proof {
            assert(self@.take(n as int) =~= self@);
        }
        chars_string(&out)
    }

    /// Reads a path from bracket notation.
    pub fn from(value: &str) -> (r: QueryString)
        ensures
            r@ == parse_path(value@),
    {
        let cs = str_chars(value);
        let n: usize = cs.len();
        proof {
            assert(cs@.subrange(0, n as int) =~= value@);
        }
        QueryString::from_chars(&cs, 0, n)
    }

    /// Reads a path from the bracket notation held in `v[from..to]`.
    pub(crate) fn from_chars(v: &Vec<char>, from: usize, to: usize) -> (r: QueryString)
        requires
            from <= to <= v@.len(),
        ensures
            r@ == parse_path(v@.subrange(from as int, to as int)),
    {
        let ghost s = v@.subrange(from as int, to as int);
        let mut raw: Vec<Vec<char>> = Vec::new();
        proof {
            assert(v@.subrange(from as int, to as int) =~= s);
            assert(chunks_model(raw@) =~= Seq::<Seq<char>>::empty());
        }
        let mut i: usize = from;
        while i < to
            invariant
                from <= i <= to <= v@.len(),
                s == v@.subrange(from as int, to as int),
                split_parts(s) == split_rec(v@.subrange(i as int, to as int), chunks_model(raw@)),
            decreases to - i,
        {
            let ghost rest = v@.subrange(i as int, to as int);
            let ghost acc = chunks_model(raw@);
            proof {
                assert(rest[0] == v@[i as int]);
                assert(rest.drop_first() =~= v@.subrange(i + 1, to as int));
            }
            let c: char = v[i];
            if c == '[' {
                raw.push(Vec::new());
                proof {
                    assert(chunks_model(raw@) =~= acc.push(Seq::empty()));
                }
            } else if c == ']' {
            } else if raw.len() == 0 {
                let mut nv: Vec<char> = Vec::new();
                nv.push(c);
                raw.push(nv);
                proof {
                    assert(chunks_model(raw@) =~= acc.push(seq![c]));
                }
            } else {
                let last: usize = raw.len() - 1;
                let chunk = &mut raw[last];
                chunk.push(c);
                proof {
                    assert(chunks_model(raw@) =~= acc.update(last as int, acc.last().push(c)));
                }
            }
            proof {
                assert(split_rec(rest, acc) == split_rec(
                    v@.subrange(i + 1, to as int),
                    split_step(acc, c),
                ));
            }
            i = i + 1;
        }
        proof {
            assert(v@.subrange(to as int, to as int) =~= Seq::<char>::empty());
            assert(split_parts(s) == chunks_model(raw@));
        }
        let m: usize = raw.len();
        let mut parts: Vec<QueryStringPart> = Vec::new();
        for j in 0..m
            invariant
                m == raw@.len(),
                split_parts(s) == chunks_model(raw@),
                parts@.len() == j,
                forall|k: int| 0 <= k < j ==> parts@[k]@ == seg_of_chars(chunks_model(raw@)[k]),
        {
            let chunk = &raw[j];
            proof {
                assert(chunk@.subrange(0, chunk@.len() as int) =~= chunk@);
                assert(chunks_model(raw@)[j as int] == chunk@);
            }
            let seg = match parse_index(chunk, 0, chunk.len()) {
                Some(ix) => QueryStringPart::Index(ix),
                None => QueryStringPart::Key(chars_string(chunk)),
            };
            parts.push(seg);
        }
        let r = QueryString { parts };
        proof {
            assert(r@ =~= parse_path(s));
        }
        r
    }
}

// ---------------------------------------------------------------------------
// The path round trip
// ---------------------------------------------------------------------------

pub open spec fn bracket_free(s: Seq<char>) -> bool {
    forall|t: int| 0 <= t < s.len() ==> s[t] != '[' && s[t] != ']'
}

/// A segment that renders unambiguously: an index that fits the machine,
/// or a key that is nonempty, holds no brackets, and does not itself read
/// as an index.
pub open spec fn canonical_seg(s: SegModel) -> bool {
    match s {
        SegModel::Index(i) => 0 <= i <= usize::MAX as int,
        SegModel::Key(k) => k.len() > 0 && !is_index_chars(k) && bracket_free(k),
    }
}

pub open spec fn canonical_path(p: Seq<SegModel>) -> bool {
    forall|i: int| 0 <= i < p.len() ==> canonical_seg(#[trigger] p[i])
}

spec fn raw_segs(p: Seq<SegModel>) -> Seq<Seq<char>> {
    p.map_values(|s: SegModel| seg_chars(s))
}

spec fn tail_chars(p: Seq<SegModel>, i: int) -> Seq<char>
    decreases p.len() - i,
{
    if i < 0 || i >= p.len() {
        Seq::empty()
    } else {
        seq!['['] + seg_chars(p[i]) + seq![']'] + tail_chars(p, i + 1)
    }
}

proof fn lemma_seg_chars_canonical(s: SegModel)
    requires
        canonical_seg(s),
    ensures
        seg_chars(s).len() > 0,
        bracket_free(seg_chars(s)),
        seg_of_chars(seg_chars(s)) == s,
{
    match s {
        SegModel::Index(i) => {
            lemma_dec_chars_val(i);
            let d = dec_chars(i);
            assert(forall|t: int|
                0 <= t < d.len() ==> crate::text::is_digit(#[trigger] d[t]));
            assert(forall|t: int| 0 <= t < d.len() ==> d[t] != '[' && d[t] != ']');
            assert(d[0] != '+');
            assert(crate::text::digits_val_ok(d));
            assert(is_index_chars(d));
            assert(index_chars_val(d) == i);
        },
        SegModel::Key(_) => {},
    }
}

proof fn lemma_split_app(s: Seq<char>, u: Seq<char>, acc: Seq<Seq<char>>)
    requires
        acc.len() > 0,
        bracket_free(s),
    ensures
        split_rec(s + u, acc) == split_rec(u, acc.update(acc.len() - 1, acc.last() + s)),
    decreases s.len(),
{
    if s.len() == 0 {
        assert(s + u =~= u);
        assert(acc.last() + s =~= acc.last());
        assert(acc.update(acc.len() - 1, acc.last() + s) =~= acc);
    } else {
        assert((s + u)[0] == s[0]);
        assert((s + u).drop_first() =~= s.drop_first() + u);
        let acc2 = split_step(acc, s[0]);
        assert(acc2 == acc.update(acc.len() - 1, acc.last().push(s[0])));
        lemma_split_app(s.drop_first(), u, acc2);
        assert(acc2.last() + s.drop_first() =~= acc.last() + s);
        assert(acc2.update(acc2.len() - 1, acc2.last() + s.drop_first()) =~= acc.update(
            acc.len() - 1,
            acc.last() + s,
        ));
    }
}

proof fn lemma_split_first(s: Seq<char>, u: Seq<char>)
    requires
        s.len() > 0,
        bracket_free(s),
    ensures
        split_rec(s + u, Seq::empty()) == split_rec(u, seq![s]),
{
    assert((s + u)[0] == s[0]);
    assert((s + u).drop_first() =~= s.drop_first() + u);
    let acc1 = split_step(Seq::empty(), s[0]);
    assert(acc1 == seq![seq![s[0]]]);
    lemma_split_app(s.drop_first(), u, acc1);
    assert(acc1.last() + s.drop_first() =~= s);
    assert(acc1.update(0, acc1.last() + s.drop_first()) =~= seq![s]);
}

proof fn lemma_split_seg(s: Seq<char>, rest: Seq<char>, acc: Seq<Seq<char>>)
    requires
        bracket_free(s),
    ensures
        split_rec(seq!['['] + s + seq![']'] + rest, acc) == split_rec(rest, acc.push(s)),
{
    let whole = seq!['['] + s + seq![']'] + rest;
    assert(whole[0] == '[');
    assert(whole.drop_first() =~= s + (seq![']'] + rest));
    assert(split_step(acc, '[') == acc.push(Seq::<char>::empty()));
    lemma_split_app(s, seq![']'] + rest, acc.push(Seq::empty()));
    let accs = acc.push(Seq::<char>::empty());
    assert(accs.last() + s =~= s);
    assert(accs.update(accs.len() - 1, accs.last() + s) =~= acc.push(s));
    assert((seq![']'] + rest)[0] == ']');
    assert((seq![']'] + rest).drop_first() =~= rest);
    assert(split_step(acc.push(s), ']') == acc.push(s));
}

proof fn lemma_tail_snoc(p: Seq<SegModel>, i: int)
    requires
        p.len() >= 2,
        1 <= i <= p.len() - 1,
    ensures
        tail_chars(p, i) == tail_chars(p.drop_last(), i) + (seq!['['] + seg_chars(p.last())
            + seq![']']),
    decreases p.len() - i,
{
    if i == p.len() - 1 {
        assert(tail_chars(p.drop_last(), i) =~= Seq::<char>::empty());
        assert(tail_chars(p, i + 1) =~= Seq::<char>::empty());
        assert(p[i] == p.last());
        assert(tail_chars(p, i) =~= seq!['['] + seg_chars(p.last()) + seq![']']);
        assert(Seq::<char>::empty() + (seq!['['] + seg_chars(p.last()) + seq![']']) =~= seq![
            '[',
        ] + seg_chars(p.last()) + seq![']']);
    } else {
        lemma_tail_snoc(p, i + 1);
        assert(p.drop_last()[i] == p[i]);
        assert(tail_chars(p, i) == seq!['['] + seg_chars(p[i]) + seq![']'] + tail_chars(
            p,
            i + 1,
        ));
        assert(tail_chars(p.drop_last(), i) == seq!['['] + seg_chars(p[i]) + seq![']']
            + tail_chars(p.drop_last(), i + 1));
        assert(seq!['['] + seg_chars(p[i]) + seq![']'] + (tail_chars(p.drop_last(), i + 1) + (
        seq!['['] + seg_chars(p.last()) + seq![']'])) =~= (seq!['['] + seg_chars(p[i]) + seq![
            ']',
        ] + tail_chars(p.drop_last(), i + 1)) + (seq!['['] + seg_chars(p.last()) + seq![']']));
    }
}

proof fn lemma_path_chars_front(p: Seq<SegModel>)
    requires
        p.len() >= 1,
    ensures
        path_chars(p) == seg_chars(p[0]) + tail_chars(p, 1),
    decreases p.len(),
{
    if p.len() == 1 {
        assert(tail_chars(p, 1) =~= Seq::<char>::empty());
        assert(seg_chars(p[0]) + Seq::<char>::empty() =~= seg_chars(p[0]));
    } else {
        lemma_path_chars_front(p.drop_last());
        assert(p.drop_last()[0] == p[0]);
        lemma_tail_snoc(p, 1);
        assert((seg_chars(p[0]) + tail_chars(p.drop_last(), 1)) + (seq!['['] + seg_chars(
            p.last(),
        ) + seq![']']) =~= seg_chars(p[0]) + (tail_chars(p.drop_last(), 1) + (seq!['[']
            + seg_chars(p.last()) + seq![']'])));
        assert(path_chars(p) == path_chars(p.drop_last()) + seq!['['] + seg_chars(p.last())
            + seq![']']);
        assert(path_chars(p.drop_last()) + seq!['['] + seg_chars(p.last()) + seq![']'] =~= (
        seg_chars(p[0]) + tail_chars(p.drop_last(), 1)) + (seq!['['] + seg_chars(p.last())
            + seq![']']));
    }
}

proof fn lemma_split_tail(p: Seq<SegModel>, i: int, acc: Seq<Seq<char>>)
    requires
        canonical_path(p),
        0 <= i <= p.len(),
    ensures
        split_rec(tail_chars(p, i), acc) == acc + raw_segs(p).subrange(i, p.len() as int),
    decreases p.len() - i,
{
    if i >= p.len() {
        assert(tail_chars(p, i) =~= Seq::<char>::empty());
        assert(raw_segs(p).subrange(i, p.len() as int) =~= Seq::<Seq<char>>::empty());
        assert(acc + raw_segs(p).subrange(i, p.len() as int) =~= acc);
    } else {
        lemma_seg_chars_canonical(p[i]);
        lemma_split_seg(seg_chars(p[i]), tail_chars(p, i + 1), acc);
        lemma_split_tail(p, i + 1, acc.push(seg_chars(p[i])));
        assert(raw_segs(p)[i] == seg_chars(p[i]));
        assert(acc.push(seg_chars(p[i])) + raw_segs(p).subrange(i + 1, p.len() as int) =~= acc
            + raw_segs(p).subrange(i, p.len() as int));
    }
}

/// Path round trip: a path whose segments render unambiguously parses
/// back from its own bracket notation.
pub proof fn lemma_path_roundtrip(p: Seq<SegModel>)
    requires
        canonical_path(p),
    ensures
        parse_path(path_chars(p)) == p,
{
    if p.len() == 0 {
        assert(path_chars(p) =~= Seq::<char>::empty());
        assert(split_parts(Seq::<char>::empty()) =~= Seq::<Seq<char>>::empty());
        assert(parse_path(path_chars(p)) =~= p);
    } else {
        lemma_path_chars_front(p);
        lemma_seg_chars_canonical(p[0]);
        lemma_split_first(seg_chars(p[0]), tail_chars(p, 1));
        lemma_split_tail(p, 1, seq![seg_chars(p[0])]);
        assert(raw_segs(p)[0] == seg_chars(p[0]));
        assert(seq![seg_chars(p[0])] + raw_segs(p).subrange(1, p.len() as int) =~= raw_segs(p));
        assert(split_parts(path_chars(p)) == raw_segs(p));
        assert forall|t: int| 0 <= t < p.len() implies parse_path(path_chars(p))[t] == p[t] by {
            lemma_seg_chars_canonical(p[t]);
            assert(raw_segs(p)[t] == seg_chars(p[t]));
        }
        assert(parse_path(path_chars(p)) =~= p);
    }
}

} // verus!
