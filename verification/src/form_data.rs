use vstd::prelude::*;

use crate::query_string::chunks_model;
use crate::query_string::parse_path;
use crate::query_string::path_chars;
use crate::query_string::QueryString;
use crate::query_string::QueryStringPart;
use crate::query_string::SegModel;
use crate::text::chars_string;
use crate::text::dec_enc_chars;
use crate::text::decode_value;
use crate::text::enc_chars;
use crate::text::encode_value;
use crate::text::str_chars;

verus! {

broadcast use vstd::std_specs::vec::group_vec_axioms;

/// Ghost model of a form data tree: a group of keyed children or a raw
/// input value.
#[verifier::ext_equal]
pub enum DataModel {
    Group(Seq<(SegModel, DataModel)>),
    Input(Seq<char>),
}

/// A raw input value.
#[derive(Debug)]
pub struct InputData(String);

/// An ordered group of keyed child trees.
#[derive(Debug)]
pub struct GroupData(Vec<(QueryStringPart, Data)>);

/// A tree of form data: every node is either a group of keyed children or
/// a raw input value.
#[derive(Debug)]
pub enum Data {
    Group(GroupData),
    Input(InputData),
}

pub closed spec fn data_model(d: Data) -> DataModel
    decreases d,
{
    match d {
        Data::Group(g) => DataModel::Group(entries_model(g.0@)),
        Data::Input(v) => DataModel::Input(v.0@),
    }
}

pub closed spec fn entries_model(v: Seq<(QueryStringPart, Data)>) -> Seq<(SegModel, DataModel)>
    decreases v,
{
    if v.len() == 0 {
        Seq::empty()
    } else {
        entries_model(v.drop_last()).push((v.last().0@, data_model(v.last().1)))
    }
}

impl View for Data {
    type V = DataModel;

    closed spec fn view(&self) -> DataModel {
        data_model(*self)
    }
}

impl View for GroupData {
    type V = Seq<(SegModel, DataModel)>;

    closed spec fn view(&self) -> Seq<(SegModel, DataModel)> {
        entries_model(self.0@)
    }
}

impl View for InputData {
    type V = Seq<char>;

    closed spec fn view(&self) -> Seq<char> {
        self.0@
    }
}

/// The entries of a group, entry by entry.
proof fn lemma_entries_model(v: Seq<(QueryStringPart, Data)>)
    ensures
        entries_model(v).len() == v.len(),
        forall|i: int|
            0 <= i < v.len() ==> entries_model(v)[i] == (v[i].0@, data_model(v[i].1)),
    decreases v,
{
    if v.len() > 0 {
        lemma_entries_model(v.drop_last());
    }
}

// ---------------------------------------------------------------------------
// Ghost tree operations
// ---------------------------------------------------------------------------

/// The child of a group under a key: the first entry with that key.
pub open spec fn child_lookup(cs: Seq<(SegModel, DataModel)>, k: SegModel) -> Option<DataModel>
    decreases cs.len(),
{
    if cs.len() == 0 {
        None
    } else if cs[0].0 == k {
        Some(cs[0].1)
    } else {
        child_lookup(cs.drop_first(), k)
    }
}

/// The position of a key among a group's entries, or `-1` if absent.
pub open spec fn child_index(cs: Seq<(SegModel, DataModel)>, k: SegModel) -> int
    decreases cs.len(),
{
    if cs.len() == 0 {
        -1
    } else if cs[0].0 == k {
        0
    } else {
        let r = child_index(cs.drop_first(), k);
        if r < 0 {
            -1
        } else {
            r + 1
        }
    }
}

/// Descends through groups along a path; absent segments, or descending
/// into an input, read as "not found".
pub open spec fn tree_get(m: DataModel, path: Seq<SegModel>) -> Option<DataModel>
    decreases path.len(),
{
    if path.len() == 0 {
        Some(m)
    } else {
        match m {
            DataModel::Group(cs) => match child_lookup(cs, path[0]) {
                Some(c) => tree_get(c, path.drop_first()),
                None => None,
            },
            DataModel::Input(_) => None,
        }
    }
}

/// Writes `v` at `path`, creating empty intermediate groups as needed.
/// Writing below an input leaves the tree unchanged.
pub open spec fn tree_set(m: DataModel, path: Seq<SegModel>, v: DataModel) -> DataModel
    decreases path.len(),
{
    if path.len() == 0 {
        v
    } else {
        match m {
            DataModel::Group(cs) => {
                let i = child_index(cs, path[0]);
                if i >= 0 {
                    DataModel::Group(
                        cs.update(i, (path[0], tree_set(cs[i].1, path.drop_first(), v))),
                    )
                } else {
                    DataModel::Group(
                        cs.push(
                            (
                                path[0],
                                tree_set(
                                    DataModel::Group(Seq::empty()),
                                    path.drop_first(),
                                    v,
                                ),
                            ),
                        ),
                    )
                }
            },
            DataModel::Input(_) => m,
        }
    }
}

/// The greatest index among a group's index-keyed entries.
pub open spec fn max_index(cs: Seq<(SegModel, DataModel)>) -> Option<int>
    decreases cs.len(),
{
    if cs.len() == 0 {
        None
    } else {
        let rest = max_index(cs.drop_last());
        match cs.last().0 {
            SegModel::Index(i) => match rest {
                None => Some(i),
                Some(m) => Some(if i > m { i } else { m }),
            },
            SegModel::Key(_) => rest,
        }
    }
}

/// The inferred array length of the node at `path`.
pub open spec fn arr_len_at(m: DataModel, path: Seq<SegModel>) -> Option<int> {
    match tree_get(m, path) {
        Some(n) => arr_len(n),
        None => None,
    }
}

/// The inferred array length of a node: one more than the greatest index
/// among its children, or unknown if it has no index-keyed children.
pub open spec fn arr_len(m: DataModel) -> Option<int> {
    match m {
        DataModel::Group(cs) => match max_index(cs) {
            Some(mx) => Some(mx + 1),
            None => None,
        },
        DataModel::Input(_) => None,
    }
}

proof fn lemma_child_lookup_found(cs: Seq<(SegModel, DataModel)>, k: SegModel, j: int)
    requires
        0 <= j < cs.len(),
        cs[j].0 == k,
        forall|t: int| 0 <= t < j ==> cs[t].0 != k,
    ensures
        child_lookup(cs, k) == Some(cs[j].1),
        child_index(cs, k) == j,
    decreases j,
{
    if j > 0 {
        lemma_child_lookup_found(cs.drop_first(), k, j - 1);
    }
}

proof fn lemma_child_lookup_none(cs: Seq<(SegModel, DataModel)>, k: SegModel)
    requires
        forall|t: int| 0 <= t < cs.len() ==> cs[t].0 != k,
    ensures
        child_lookup(cs, k) is None,
        child_index(cs, k) == -1,
    decreases cs.len(),
{
    if cs.len() > 0 {
        lemma_child_lookup_none(cs.drop_first(), k);
    }
}

// ---------------------------------------------------------------------------
// Nodes and accessors
// ---------------------------------------------------------------------------

impl InputData {
    pub fn new(value: String) -> (r: Self)
        ensures
            r@ == value@,
    {
        InputData(value)
    }

    /// The raw string held by this input.
    pub fn raw(&self) -> (r: &str)
        ensures
            r@ == self@,
    {
        self.0.as_str()
    }
}

impl GroupData {
    pub fn new() -> (r: Self)
        ensures
            r@ == Seq::<(SegModel, DataModel)>::empty(),
    {
        GroupData(Vec::new())
    }

    /// The number of direct children of this group.
    pub fn len(&self) -> (r: usize)
        ensures
            r == self@.len(),
    {
        proof {
            lemma_entries_model(self.0@);
        }
        self.0.len()
    }
}

impl Data {
    pub fn new_group() -> (r: Self)
        ensures
            r@ == DataModel::Group(Seq::empty()),
    {
        Data::Group(GroupData::new())
    }

    pub fn new_input(value: String) -> (r: Self)
        ensures
            r@ == DataModel::Input(value@),
    {
        Data::Input(InputData::new(value))
    }

    pub fn as_input(&self) -> (r: Option<&InputData>)
        ensures
            (r is Some) == (self@ is Input),
            r matches Some(v) ==> self@ == DataModel::Input(v@),
    {
        match self {
            Data::Input(v) => Some(v),
            _ => None,
        }
    }

    pub fn as_group(&self) -> (r: Option<&GroupData>)
        ensures
            (r is Some) == (self@ is Group),
            r matches Some(g) ==> self@ == DataModel::Group(g@),
    {
        match self {
            Data::Group(g) => Some(g),
            _ => None,
        }
    }

    pub fn into_input(self) -> (r: Option<InputData>)
        ensures
            (r is Some) == (self@ is Input),
            r matches Some(v) ==> self@ == DataModel::Input(v@),
    {
        match self {
            Data::Input(v) => Some(v),
            _ => None,
        }
    }

    pub fn into_group(self) -> (r: Option<GroupData>)
        ensures
            (r is Some) == (self@ is Group),
            r matches Some(g) ==> self@ == DataModel::Group(g@),
    {
        match self {
            Data::Group(g) => Some(g),
            _ => None,
        }
    }

    /// The number of direct children, for a group.
    pub fn len(&self) -> (r: Option<usize>)
        ensures
            self@ matches DataModel::Group(cs) ==> r == Some(cs.len() as usize),
            self@ is Input ==> r is None,
    {
        match self {
            Data::Group(g) => Some(g.len()),
            _ => None,
        }
    }
}

impl Clone for Data {
    /// Clones the whole tree.
    #[verifier::loop_isolation(false)]
    fn clone(&self) -> (r: Self)
        ensures
            r@ == self@,
        decreases self,
    {
        match self {
            Data::Input(v) => Data::Input(InputData(v.0.clone())),
            Data::Group(g) => {
                let n: usize = g.0.len();
                let mut out: Vec<(QueryStringPart, Data)> = Vec::new();
                for i in 0..n
                    invariant
                        n == g.0@.len(),
                        out@.len() == i,
                        forall|k: int|
                            0 <= k < i ==> out@[k].0@ == g.0@[k].0@ && out@[k].1@ == g.0@[k].1@,
                    decreases n - i,
                {
                    let key = g.0[i].0.clone();
                    let sub = g.0[i].1.clone();
                    out.push((key, sub));
                }
                let r = Data::Group(GroupData(out));
                proof {
                    lemma_entries_model(out@);
                    lemma_entries_model(g.0@);
                    assert(entries_model(out@) =~= entries_model(g.0@));
                }
                r
            },
        }
    }
}

impl Data {
    /// Structural equality of whole trees.
    #[verifier::loop_isolation(false)]
    fn deep_eq(&self, other: &Self) -> (r: bool)
        ensures
            r == (self@ == other@),
        decreases self,
    {
        match (self, other) {
            (Data::Input(a), Data::Input(b)) => <String as PartialEq>::eq(&a.0, &b.0),
            (Data::Group(a), Data::Group(b)) => {
                if a.0.len() != b.0.len() {
                    proof {
                        lemma_entries_model(a.0@);
                        lemma_entries_model(b.0@);
                    }
                    return false;
                }
                let n: usize = a.0.len();
                for i in 0..n
                    invariant
                        n == a.0@.len() == b.0@.len(),
                        forall|k: int|
                            0 <= k < i ==> a.0@[k].0@ == b.0@[k].0@ && a.0@[k].1@ == b.0@[k].1@,
                    decreases n - i,
                {
                    if !(a.0[i].0 == b.0[i].0) {
                        proof {
                            lemma_entries_model(a.0@);
                            lemma_entries_model(b.0@);
                            assert(entries_model(a.0@)[i as int] != entries_model(b.0@)[i as int]);
                        }
                        return false;
                    }
                    if !(a.0[i].1.deep_eq(&b.0[i].1)) {
                        proof {
                            lemma_entries_model(a.0@);
                            lemma_entries_model(b.0@);
                            assert(entries_model(a.0@)[i as int] != entries_model(b.0@)[i as int]);
                        }
                        return false;
                    }
                }
                proof {
                    lemma_entries_model(a.0@);
                    lemma_entries_model(b.0@);
                    assert(entries_model(a.0@) =~= entries_model(b.0@));
                }
                true
            },
            _ => false,
        }
    }
}

impl PartialEq for Data {
    fn eq(&self, other: &Self) -> (r: bool) {
        self.deep_eq(other)
    }
}

impl vstd::std_specs::cmp::PartialEqSpecImpl for Data {
    open spec fn obeys_eq_spec() -> bool {
        true
    }

    open spec fn eq_spec(&self, other: &Self) -> bool {
        self@ == other@
    }
}

impl Data {
    #[verifier::loop_isolation(false)]
    fn get_at(&self, qs: &QueryString, i: usize) -> (r: Option<&Data>)
        requires
            i <= qs@.len(),
        ensures
            (r is Some) == (tree_get(self@, qs@.skip(i as int)) is Some),
            r matches Some(d) ==> tree_get(self@, qs@.skip(i as int)) == Some(d@),
        decreases qs@.len() - i,
    {
        let ghost path = qs@.skip(i as int);
        if i == qs.len() {
            return Some(self);
        }
        proof {
            assert(path[0] == qs@[i as int]);
            assert(path.drop_first() =~= qs@.skip(i + 1));
        }
        match self {
            Data::Input(_) => None,
            Data::Group(g) => {
                let key = qs.part(i);
                let n: usize = g.0.len();
                proof {
                    lemma_entries_model(g.0@);
                }
                let mut j: usize = 0;
                while j < n
                    invariant
                        j <= n,
                        forall|t: int| 0 <= t < j ==> g.0@[t].0@ != qs@[i as int],
                    decreases n - j,
                {
                    if g.0[j].0 == *key {
                        proof {
                            lemma_child_lookup_found(entries_model(g.0@), qs@[i as int], j as int);
                        }
                        return g.0[j].1.get_at(qs, i + 1);
                    }
                    j += 1;
                }
                proof {
                    lemma_child_lookup_none(entries_model(g.0@), qs@[i as int]);
                }
                None
            },
        }
    }

    /// The subtree at `qs`, if present.
    pub fn get(&self, qs: &QueryString) -> (r: Option<Data>)
        ensures
            (r is Some) == (tree_get(self@, qs@) is Some),
            r matches Some(d) ==> tree_get(self@, qs@) == Some(d@),
    {
        proof {
            assert(qs@.skip(0) =~= qs@);
        }
        match self.get_at(qs, 0) {
            Some(d) => Some(d.clone()),
            None => None,
        }
    }

    #[verifier::loop_isolation(false)]
    fn set_at(&mut self, qs: &QueryString, i: usize, value: Data)
        requires
            i <= qs@.len(),
        ensures
            final(self)@ == tree_set(old(self)@, qs@.skip(i as int), value@),
        decreases qs@.len() - i,
    {
        let ghost path = qs@.skip(i as int);
        if i == qs.len() {
            *self = value;
            return;
        }
        proof {
            assert(path[0] == qs@[i as int]);
            assert(path.drop_first() =~= qs@.skip(i + 1));
        }
        match self {
            Data::Input(_) => {},
            Data::Group(g) => {
                let key = qs.part(i);
                let n: usize = g.0.len();
                proof {
                    lemma_entries_model(g.0@);
                }
                let ghost oldg = g.0@;
                let mut j: usize = 0;
                while j < n
                    invariant
                        j <= n,
                        g.0@ == oldg,
                        forall|t: int| 0 <= t < j ==> g.0@[t].0@ != qs@[i as int],
                    decreases n - j,
                {
                    if g.0[j].0 == *key {
                        proof {
                            lemma_child_lookup_found(entries_model(oldg), qs@[i as int], j as int);
                        }
                        let pr = &mut g.0[j];
                        pr.1.set_at(qs, i + 1, value);
                        proof {
                            lemma_entries_model(g.0@);
                            lemma_entries_model(oldg);
                            assert(entries_model(g.0@) =~= entries_model(oldg).update(
                                j as int,
                                (
                                    qs@[i as int],
                                    tree_set(
                                        data_model(oldg[j as int].1),
                                        qs@.skip(i + 1),
                                        value@,
                                    ),
                                ),
                            ));
                        }
                        return;
                    }
                    j += 1;
                }
                proof {
                    lemma_child_lookup_none(entries_model(oldg), qs@[i as int]);
                }
                let mut fresh = Data::new_group();
                fresh.set_at(qs, i + 1, value);
                g.0.push((key.clone(), fresh));
                proof {
                    lemma_entries_model(g.0@);
                    lemma_entries_model(oldg);
                    assert(entries_model(g.0@) =~= entries_model(oldg).push(
                        (
                            qs@[i as int],
                            tree_set(DataModel::Group(Seq::empty()), qs@.skip(i + 1), value@),
                        ),
                    ));
                }
            },
        }
    }

    /// Writes `value` at `qs`, creating empty intermediate groups along the
    /// way; writing below an input leaves the tree unchanged.
    pub fn set(&mut self, qs: &QueryString, value: Data)
        ensures
            final(self)@ == tree_set(old(self)@, qs@, value@),
    {
        proof {
            assert(qs@.skip(0) =~= qs@);
        }
        self.set_at(qs, 0, value);
    }

    /// The inferred array length at `qs`: one more than the greatest index
    /// among the children of the group found there, or `None` if there is
    /// no such group or it has no index-keyed children.
    #[verifier::loop_isolation(false)]
    pub fn len_at(&self, qs: &QueryString) -> (r: Option<usize>)
        requires
            arr_len_at(self@, qs@) matches Some(n) ==> n <= usize::MAX as int,
        ensures
            (r is Some) == (arr_len_at(self@, qs@) is Some),
            r matches Some(n) ==> arr_len_at(self@, qs@) == Some(n as int),
    {
        proof {
            assert(qs@.skip(0) =~= qs@);
        }
        let node = match self.get_at(qs, 0) {
            Some(d) => d,
            None => {
                return None;
            },
        };
        match node {
            Data::Input(_) => None,
            Data::Group(g) => {
                let ghost cs = entries_model(g.0@);
                let n: usize = g.0.len();
                proof {
                    lemma_entries_model(g.0@);
                    assert(cs.take(0) =~= Seq::<(SegModel, DataModel)>::empty());
                }
                let mut best: Option<usize> = None;
                for j in 0..n
                    invariant
                        n == g.0@.len(),
                        cs == entries_model(g.0@),
                        (best is Some) == (max_index(cs.take(j as int)) is Some),
                        best matches Some(b) ==> max_index(cs.take(j as int)) == Some(b as int),
                {
                    proof {
                        assert(cs.take(j + 1).drop_last() =~= cs.take(j as int));
                        assert(cs.take(j + 1).last() == cs[j as int]);
                        assert(cs[j as int] == (g.0@[j as int].0@, data_model(g.0@[j as int].1)));
                    }
                    match &g.0[j].0 {
                        QueryStringPart::Index(ix) => {
                            best = match best {
                                None => Some(*ix),
                                Some(b) => Some(if *ix > b { *ix } else { b }),
                            };
                        },
                        QueryStringPart::Key(_) => {},
                    }
                }
                proof {
                    assert(cs.take(n as int) =~= cs);
                }
                match best {
                    None => None,
                    Some(mx) => Some(mx + 1),
                }
            },
        }
    }
}

// ---------------------------------------------------------------------------
// The flat wire representation
// ---------------------------------------------------------------------------

/// Ghost contents of a vector of `(path, value)` pairs.
pub open spec fn pairs_model(v: Seq<(QueryString, String)>) -> Seq<(Seq<SegModel>, Seq<char>)> {
    Seq::new(v.len(), |i: int| (v[i].0@, v[i].1@))
}

/// Prefixes every path of `ps` with `pre`.
pub open spec fn prefix_all(
    pre: Seq<SegModel>,
    ps: Seq<(Seq<SegModel>, Seq<char>)>,
) -> Seq<(Seq<SegModel>, Seq<char>)> {
    ps.map_values(|pr: (Seq<SegModel>, Seq<char>)| (pre + pr.0, pr.1))
}

/// The flattening of a tree to `(path, value)` pairs, in tree order.
pub open spec fn flat_model(m: DataModel) -> Seq<(Seq<SegModel>, Seq<char>)>
    decreases m,
{
    match m {
        DataModel::Input(v) => seq![(Seq::<SegModel>::empty(), v)],
        DataModel::Group(cs) => flat_entries(cs),
    }
}

pub open spec fn flat_entries(cs: Seq<(SegModel, DataModel)>) -> Seq<(Seq<SegModel>, Seq<char>)>
    decreases cs,
{
    if cs.len() == 0 {
        Seq::empty()
    } else {
        flat_entries(cs.drop_last()) + prefix_all(
            seq![cs.last().0],
            flat_model(cs.last().1),
        )
    }
}

/// The tree built by writing each flat pair in order into an empty group.
pub open spec fn from_flat_model(ps: Seq<(Seq<SegModel>, Seq<char>)>) -> DataModel
    decreases ps.len(),
{
    if ps.len() == 0 {
        DataModel::Group(Seq::empty())
    } else {
        tree_set(
            from_flat_model(ps.drop_last()),
            ps.last().0,
            DataModel::Input(ps.last().1),
        )
    }
}

proof fn lemma_prefix_all_concat(
    pre: Seq<SegModel>,
    a: Seq<(Seq<SegModel>, Seq<char>)>,
    b: Seq<(Seq<SegModel>, Seq<char>)>,
)
    ensures
        prefix_all(pre, a + b) == prefix_all(pre, a) + prefix_all(pre, b),
{
    assert(prefix_all(pre, a + b) =~= prefix_all(pre, a) + prefix_all(pre, b));
}

proof fn lemma_prefix_all_compose(
    pre: Seq<SegModel>,
    k: SegModel,
    ps: Seq<(Seq<SegModel>, Seq<char>)>,
)
    ensures
        prefix_all(pre, prefix_all(seq![k], ps)) == prefix_all(pre.push(k), ps),
{
    let lhs = prefix_all(pre, prefix_all(seq![k], ps));
    let rhs = prefix_all(pre.push(k), ps);
    assert forall|i: int| 0 <= i < ps.len() implies lhs[i] == rhs[i] by {
        assert(pre + (seq![k] + ps[i].0) =~= pre.push(k) + ps[i].0);
    }
    assert(lhs =~= rhs);
}

impl Data {
    #[verifier::loop_isolation(false)]
    fn flat_visit(&self, prefix: &mut QueryString, acc: &mut Vec<(QueryString, String)>)
        ensures
            final(prefix)@ == old(prefix)@,
            pairs_model(final(acc)@) == pairs_model(old(acc)@) + prefix_all(
                old(prefix)@,
                flat_model(self@),
            ),
        decreases self,
    {
        match self {
            Data::Input(v) => {
                acc.push((prefix.clone(), v.0.clone()));
                proof {
                    assert(old(prefix)@ + Seq::<SegModel>::empty() =~= old(prefix)@);
                    assert(pairs_model(acc@) =~= pairs_model(old(acc)@) + prefix_all(
                        old(prefix)@,
                        flat_model(self@),
                    ));
                }
            },
            Data::Group(g) => {
                let ghost cs = entries_model(g.0@);
                let n: usize = g.0.len();
                proof {
                    lemma_entries_model(g.0@);
                    assert(cs.take(0) =~= Seq::<(SegModel, DataModel)>::empty());
                    assert(pairs_model(acc@) + prefix_all(old(prefix)@, flat_entries(cs.take(0)))
                        =~= pairs_model(acc@));
                }
                for i in 0..n
                    invariant
                        n == g.0@.len(),
                        cs == entries_model(g.0@),
                        prefix@ == old(prefix)@,
                        pairs_model(acc@) == pairs_model(old(acc)@) + prefix_all(
                            old(prefix)@,
                            flat_entries(cs.take(i as int)),
                        ),
                {
                    proof {
                        assert(cs.take(i + 1).drop_last() =~= cs.take(i as int));
                        assert(cs.take(i + 1).last() == cs[i as int]);
                        assert(cs[i as int] == (g.0@[i as int].0@, data_model(g.0@[i as int].1)));
                    }
                    let key = g.0[i].0.clone();
                    prefix.push_part(key);
                    g.0[i].1.flat_visit(prefix, acc);
                    prefix.pop_part();
                    proof {
                        assert(prefix@ =~= old(prefix)@);
                        lemma_prefix_all_compose(
                            old(prefix)@,
                            cs[i as int].0,
                            flat_model(cs[i as int].1),
                        );
                        lemma_prefix_all_concat(
                            old(prefix)@,
                            flat_entries(cs.take(i as int)),
                            prefix_all(seq![cs[i as int].0], flat_model(cs[i as int].1)),
                        );
                        assert(pairs_model(acc@) =~= pairs_model(old(acc)@) + prefix_all(
                            old(prefix)@,
                            flat_entries(cs.take(i + 1)),
                        ));
                    }
                }
                proof {
                    assert(cs.take(n as int) =~= cs);
                }
            },
        }
    }

    /// Flattens this tree to ordered `(path, value)` pairs.
    pub fn to_flat(&self) -> (r: Vec<(QueryString, String)>)
        ensures
            pairs_model(r@) == flat_model(self@),
    {
        let mut prefix = QueryString::new();
        let mut acc: Vec<(QueryString, String)> = Vec::new();
        proof {
            assert(pairs_model(Seq::<(QueryString, String)>::empty())
                =~= Seq::<(Seq<SegModel>, Seq<char>)>::empty());
        }
        self.flat_visit(&mut prefix, &mut acc);
        proof {
            assert(prefix_all(Seq::<SegModel>::empty(), flat_model(self@)) =~= flat_model(self@));
            assert(pairs_model(acc@) =~= flat_model(self@));
        }
        acc
    }

    /// Rebuilds a tree from flat `(path, value)` pairs by writing them in
    /// order into an empty group.
    #[verifier::loop_isolation(false)]
    pub fn from_flat(pairs: &Vec<(QueryString, String)>) -> (r: Data)
        ensures
            r@ == from_flat_model(pairs_model(pairs@)),
    {
        let ghost ps = pairs_model(pairs@);
        let mut d = Data::new_group();
        proof {
            assert(ps.take(0) =~= Seq::<(Seq<SegModel>, Seq<char>)>::empty());
        }
        let n: usize = pairs.len();
        for i in 0..n
            invariant
                n == pairs@.len(),
                ps == pairs_model(pairs@),
                d@ == from_flat_model(ps.take(i as int)),
        {
            proof {
                assert(ps.take(i + 1).drop_last() =~= ps.take(i as int));
                assert(ps.take(i + 1).last() == ps[i as int]);
            }
            let value = pairs[i].1.clone();
            d.set(&pairs[i].0, Data::new_input(value));
        }
        proof {
            assert(ps.take(n as int) =~= ps);
        }
        d
    }
}

// ---------------------------------------------------------------------------
// The urlencoded wire format
// ---------------------------------------------------------------------------

/// Splitting the wire string on `&`, keeping empty pieces.
pub open spec fn amp_rec(s: Seq<char>, cur: Seq<char>) -> Seq<Seq<char>>
    decreases s.len(),
{
    if s.len() == 0 {
        seq![cur]
    } else if s[0] == '&' {
        seq![cur] + amp_rec(s.drop_first(), Seq::empty())
    } else {
        amp_rec(s.drop_first(), cur.push(s[0]))
    }
}

pub open spec fn split_amp(s: Seq<char>) -> Seq<Seq<char>> {
    amp_rec(s, Seq::empty())
}

/// Splitting one `key=value` piece at its first `=`; a piece without `=`
/// reads as a key with an empty value.
pub open spec fn eq_split(p: Seq<char>) -> (Seq<char>, Seq<char>)
    decreases p.len(),
{
    if p.len() == 0 {
        (Seq::empty(), Seq::empty())
    } else if p[0] == '=' {
        (Seq::empty(), p.drop_first())
    } else {
        let r = eq_split(p.drop_first());
        (seq![p[0]] + r.0, r.1)
    }
}

/// The flat pairs denoted by a wire string: paths in bracket notation,
/// values percent-decoded.
pub open spec fn urlenc_pairs(s: Seq<char>) -> Seq<(Seq<SegModel>, Seq<char>)> {
    split_amp(s).map_values(
        |p: Seq<char>| (parse_path(eq_split(p).0), dec_enc_chars(eq_split(p).1)),
    )
}

/// The rendering of one flat pair on the wire.
pub open spec fn pair_chars(pr: (Seq<SegModel>, Seq<char>)) -> Seq<char> {
    path_chars(pr.0) + seq!['='] + enc_chars(pr.1)
}

/// The rendering of flat pairs on the wire, `&`-joined.
pub open spec fn urlenc_of(ps: Seq<(Seq<SegModel>, Seq<char>)>) -> Seq<char>
    decreases ps.len(),
{
    if ps.len() == 0 {
        Seq::empty()
    } else if ps.len() == 1 {
        pair_chars(ps[0])
    } else {
        urlenc_of(ps.drop_last()) + seq!['&'] + pair_chars(ps.last())
    }
}

proof fn lemma_eq_split_at(p: Seq<char>, j: int)
    requires
        0 <= j < p.len(),
        p[j] == '=',
        forall|t: int| 0 <= t < j ==> p[t] != '=',
    ensures
        eq_split(p).0 == p.take(j),
        eq_split(p).1 == p.skip(j + 1),
    decreases j,
{
    if j == 0 {
        assert(p.take(0) =~= Seq::<char>::empty());
        assert(p.skip(1) =~= p.drop_first());
    } else {
        assert(p.drop_first()[j - 1] == p[j]);
        lemma_eq_split_at(p.drop_first(), j - 1);
        assert(seq![p[0]] + p.drop_first().take(j - 1) =~= p.take(j));
        assert(p.drop_first().skip(j) =~= p.skip(j + 1));
    }
}

proof fn lemma_eq_split_none(p: Seq<char>)
    requires
        forall|t: int| 0 <= t < p.len() ==> p[t] != '=',
    ensures
        eq_split(p).0 == p,
        eq_split(p).1 == Seq::<char>::empty(),
    decreases p.len(),
{
    if p.len() > 0 {
        lemma_eq_split_none(p.drop_first());
        assert(seq![p[0]] + p.drop_first() =~= p);
    }
}

impl Data {
    /// Reads a tree from its urlencoded wire form.
    #[verifier::loop_isolation(false)]
    pub fn from_urlencoded(data: &str) -> (r: Data)
        ensures
            r@ == from_flat_model(urlenc_pairs(data@)),
    {
        let cs = str_chars(data);
        let n: usize = cs.len();
        let mut pieces: Vec<Vec<char>> = Vec::new();
        let mut cur: Vec<char> = Vec::new();
        proof {
            assert(chunks_model(pieces@) =~= Seq::<Seq<char>>::empty());
            assert(cs@.skip(0) =~= cs@);
            assert(chunks_model(pieces@) + amp_rec(cs@.skip(0), cur@) =~= split_amp(cs@));
        }
        for i in 0..n
            invariant
                n == cs@.len(),
                cs@ == data@,
                split_amp(cs@) == chunks_model(pieces@) + amp_rec(cs@.skip(i as int), cur@),
        {
            let ghost rest = cs@.skip(i as int);
            proof {
                assert(rest[0] == cs@[i as int]);
                assert(rest.drop_first() =~= cs@.skip(i + 1));
            }
            let c: char = cs[i];
            if c == '&' {
                let ghost done = chunks_model(pieces@);
                let ghost curv = cur@;
                pieces.push(cur);
                cur = Vec::new();
                proof {
                    assert(chunks_model(pieces@) =~= done.push(curv));
                    assert(chunks_model(pieces@) + amp_rec(cs@.skip(i + 1), cur@) =~= done + (
                    seq![curv] + amp_rec(cs@.skip(i + 1), Seq::empty())));
                }
            } else {
                cur.push(c);
            }
        }
        proof {
            assert(cs@.skip(n as int) =~= Seq::<char>::empty());
        }
        let ghost done = chunks_model(pieces@);
        let ghost curv = cur@;
        pieces.push(cur);
        proof {
            assert(chunks_model(pieces@) =~= done.push(curv));
            assert(split_amp(cs@) =~= chunks_model(pieces@));
        }
        let ghost qp = urlenc_pairs(cs@);
        let m: usize = pieces.len();
        let mut d = Data::new_group();
        proof {
            assert(qp.take(0) =~= Seq::<(Seq<SegModel>, Seq<char>)>::empty());
        }
        for j in 0..m
            invariant
                m == pieces@.len(),
                split_amp(cs@) == chunks_model(pieces@),
                qp == urlenc_pairs(cs@),
                cs@ == data@,
                d@ == from_flat_model(qp.take(j as int)),
        {
            let piece = &pieces[j];
            let ghost pc = piece@;
            proof {
                assert(chunks_model(pieces@)[j as int] == pc);
                assert(qp[j as int] == (parse_path(eq_split(pc).0), dec_enc_chars(eq_split(pc).1)));
            }
            let plen: usize = piece.len();
            let mut eqpos: Option<usize> = None;
            let mut k: usize = 0;
            while k < plen
                invariant
                    k <= plen,
                    plen == pc.len(),
                    pc == piece@,
                    eqpos is None,
                    forall|t: int| 0 <= t < k ==> pc[t] != '=',
                decreases plen - k,
            {
                if piece[k] == '=' {
                    eqpos = Some(k);
                    break;
                }
                k += 1;
            }
            let path;
            let value;
            match eqpos {
                Some(e) => {
                    proof {
                        lemma_eq_split_at(pc, e as int);
                        assert(pc.take(e as int) =~= pc.subrange(0, e as int));
                        assert(pc.skip(e + 1) =~= pc.subrange(e + 1, plen as int));
                    }
                    path = QueryString::from_chars(piece, 0, e);
                    value = decode_value(piece, e + 1, plen);
                },
                None => {
                    proof {
                        lemma_eq_split_none(pc);
                        assert(pc =~= pc.subrange(0, plen as int));
                    }
                    path = QueryString::from_chars(piece, 0, plen);
                    value = String::new();
                    proof {
                        assert(value@ =~= dec_enc_chars(eq_split(pc).1));
                    }
                },
            }
            proof {
                assert(qp.take(j + 1).drop_last() =~= qp.take(j as int));
                assert(qp.take(j + 1).last() == qp[j as int]);
            }
            d.set(&path, Data::new_input(value));
        }
        proof {
            assert(qp.take(m as int) =~= qp);
        }
        d
    }

    /// Renders this tree in its urlencoded wire form.
    #[verifier::loop_isolation(false)]
    pub fn to_urlencoded(&self) -> (r: String)
        ensures
            r@ == urlenc_of(flat_model(self@)),
    {
        let flat = self.to_flat();
        let ghost ps = pairs_model(flat@);
        let n: usize = flat.len();
        let mut out: Vec<char> = Vec::new();
        proof {
            assert(urlenc_of(ps.take(0)) =~= Seq::<char>::empty());
        }
        for i in 0..n
            invariant
                n == flat@.len(),
                ps == pairs_model(flat@),
                ps == flat_model(self@),
                out@ == urlenc_of(ps.take(i as int)),
        {
            proof {
                assert(ps.take(i + 1).drop_last() =~= ps.take(i as int));
                assert(ps.take(i + 1).last() == ps[i as int]);
            }
            if i > 0 {
                out.push('&');
            }
            let ks = flat[i].0.to_string();
            let mut kc = str_chars(ks.as_str());
            out.append(&mut kc);
            out.push('=');
            let vs = encode_value(flat[i].1.as_str());
            let mut vc = str_chars(vs.as_str());
            out.append(&mut vc);
            proof {
                if i == 0 {
                    assert(out@ =~= pair_chars(ps[0]));
                    assert(out@ =~= urlenc_of(ps.take(1)));
                } else {
                    assert(out@ =~= urlenc_of(ps.take(i as int)) + seq!['&'] + pair_chars(
                        ps[i as int]));
                    assert(out@ =~= urlenc_of(ps.take(i + 1)));
                }
            }
        }
        proof {
            assert(ps.take(n as int) =~= ps);
        }
        chars_string(&out)
    }
}

// ---------------------------------------------------------------------------
// The form store
// ---------------------------------------------------------------------------

/// The single mutable root holding a form's entire data tree. Nested
/// components address their own subtrees through [`QueryString`] paths.
#[derive(Debug)]
pub struct FormData {
    data: Data,
}

impl View for FormData {
    type V = DataModel;

    closed spec fn view(&self) -> DataModel {
        self.data@
    }
}

impl FormData {
    /// An empty store.
    pub fn new() -> (r: Self)
        ensures
            r@ == DataModel::Group(Seq::empty()),
    {
        FormData { data: Data::new_group() }
    }

    pub fn from_data(data: Data) -> (r: Self)
        ensures
            r@ == data@,
    {
        FormData { data }
    }

    /// Reads a whole store from the urlencoded wire form.
    pub fn from_urlencoded(data: &str) -> (r: Self)
        ensures
            r@ == from_flat_model(urlenc_pairs(data@)),
    {
        FormData { data: Data::from_urlencoded(data) }
    }

    /// The subtree at `qs`, if present.
    pub fn get(&self, qs: &QueryString) -> (r: Option<Data>)
        ensures
            (r is Some) == (tree_get(self@, qs@) is Some),
            r matches Some(d) ==> tree_get(self@, qs@) == Some(d@),
    {
        self.data.get(qs)
    }

    /// Writes a subtree at `qs`.
    pub fn set(&mut self, qs: &QueryString, value: Data)
        ensures
            final(self)@ == tree_set(old(self)@, qs@, value@),
    {
        self.data.set(qs, value);
    }

    /// The raw value of the input at `qs`, or the empty string where no
    /// input sits at that path.
    pub fn raw_value(&self, qs: &QueryString) -> (r: String)
        ensures
            r@ == leaf_value(self@, qs@),
    {
        match self.data.get_at(qs, 0) {
            Some(d) => match d {
                Data::Input(v) => {
                    proof {
                        assert(qs@.skip(0) =~= qs@);
                    }
                    v.0.clone()
                },
                Data::Group(_) => {
                    proof {
                        assert(qs@.skip(0) =~= qs@);
                    }
                    String::new()
                },
            },
            None => {
                proof {
                    assert(qs@.skip(0) =~= qs@);
                }
                String::new()
            },
        }
    }

    /// Writes a raw input value at `qs`.
    pub fn set_raw_value(&mut self, qs: &QueryString, value: String)
        ensures
            final(self)@ == tree_set(old(self)@, qs@, DataModel::Input(value@)),
    {
        self.data.set(qs, Data::new_input(value));
    }

    /// The inferred array length at `qs`.
    pub fn len(&self, qs: &QueryString) -> (r: Option<usize>)
        requires
            arr_len_at(self@, qs@) matches Some(n) ==> n <= usize::MAX as int,
        ensures
            (r is Some) == (arr_len_at(self@, qs@) is Some),
            r matches Some(n) ==> arr_len_at(self@, qs@) == Some(n as int),
    {
        self.data.len_at(qs)
    }

    /// Renders the whole store in its urlencoded wire form.
    pub fn to_urlencoded(&self) -> (r: String)
        ensures
            r@ == urlenc_of(flat_model(self@)),
    {
        self.data.to_urlencoded()
    }
}

/// The string sitting at a path: the value of the input there, or empty
/// where the path is absent or holds a group.
pub open spec fn leaf_value(m: DataModel, path: Seq<SegModel>) -> Seq<char> {
    match tree_get(m, path) {
        Some(DataModel::Input(v)) => v,
        _ => Seq::empty(),
    }
}

// ---------------------------------------------------------------------------
// The flat round trip
// ---------------------------------------------------------------------------

/// Whether every group keys each child at most once.
pub open spec fn keys_distinct(cs: Seq<(SegModel, DataModel)>) -> bool {
    forall|i: int, j: int| 0 <= i < j < cs.len() ==> cs[i].0 != cs[j].0
}

pub open spec fn data_wf(m: DataModel) -> bool
    decreases m,
{
    match m {
        DataModel::Input(_) => true,
        DataModel::Group(cs) => keys_distinct(cs) && forall|i: int|
            0 <= i < cs.len() ==> data_wf(#[trigger] cs[i].1),
    }
}

/// Whether this subtree holds no empty group anywhere, itself included.
pub open spec fn subtree_nonempty(m: DataModel) -> bool
    decreases m,
{
    match m {
        DataModel::Input(_) => true,
        DataModel::Group(cs) => cs.len() > 0 && forall|i: int|
            0 <= i < cs.len() ==> subtree_nonempty(#[trigger] cs[i].1),
    }
}

/// Whether every proper subtree is nonempty; the root itself may be an
/// empty group.
pub open spec fn no_empty_subgroups(m: DataModel) -> bool {
    match m {
        DataModel::Input(_) => true,
        DataModel::Group(cs) => forall|i: int|
            0 <= i < cs.len() ==> subtree_nonempty(#[trigger] cs[i].1),
    }
}

/// Writing flat pairs one by one into an existing tree.
pub open spec fn replay(m: DataModel, ps: Seq<(Seq<SegModel>, Seq<char>)>) -> DataModel
    decreases ps.len(),
{
    if ps.len() == 0 {
        m
    } else {
        tree_set(replay(m, ps.drop_last()), ps.last().0, DataModel::Input(ps.last().1))
    }
}

proof fn lemma_from_flat_is_replay(ps: Seq<(Seq<SegModel>, Seq<char>)>)
    ensures
        from_flat_model(ps) == replay(DataModel::Group(Seq::empty()), ps),
    decreases ps.len(),
{
    if ps.len() > 0 {
        lemma_from_flat_is_replay(ps.drop_last());
    }
}

proof fn lemma_replay_concat(
    m: DataModel,
    a: Seq<(Seq<SegModel>, Seq<char>)>,
    b: Seq<(Seq<SegModel>, Seq<char>)>,
)
    ensures
        replay(m, a + b) == replay(replay(m, a), b),
    decreases b.len(),
{
    if b.len() == 0 {
        assert(a + b =~= a);
    } else {
        assert((a + b).drop_last() =~= a + b.drop_last());
        assert((a + b).last() == b.last());
        lemma_replay_concat(m, a, b.drop_last());
    }
}

proof fn lemma_flat_nonempty(m: DataModel)
    requires
        subtree_nonempty(m),
    ensures
        flat_model(m).len() > 0,
    decreases m,
{
    match m {
        DataModel::Input(_) => {},
        DataModel::Group(cs) => {
            assert(subtree_nonempty(cs.last().1));
            lemma_flat_nonempty(cs.last().1);
            assert(flat_entries(cs).len() >= prefix_all(
                seq![cs.last().0],
                flat_model(cs.last().1),
            ).len());
        },
    }
}

/// Replaying pairs that all start with the key of an existing child
/// replays their suffixes inside that child.
proof fn lemma_replay_child(
    done: Seq<(SegModel, DataModel)>,
    j: int,
    k: SegModel,
    ps: Seq<(Seq<SegModel>, Seq<char>)>,
)
    requires
        0 <= j < done.len(),
        done[j].0 == k,
        forall|t: int| 0 <= t < j ==> done[t].0 != k,
    ensures
        replay(DataModel::Group(done), prefix_all(seq![k], ps)) == DataModel::Group(
            done.update(j, (k, replay(done[j].1, ps))),
        ),
    decreases ps.len(),
{
    let pa = prefix_all(seq![k], ps);
    if ps.len() == 0 {
        assert(pa =~= Seq::<(Seq<SegModel>, Seq<char>)>::empty());
        assert(done.update(j, (k, done[j].1)) =~= done);
    } else {
        assert(pa.drop_last() =~= prefix_all(seq![k], ps.drop_last()));
        assert(pa.last() == (seq![k] + ps.last().0, ps.last().1));
        lemma_replay_child(done, j, k, ps.drop_last());
        let done2 = done.update(j, (k, replay(done[j].1, ps.drop_last())));
        assert(replay(DataModel::Group(done), pa.drop_last()) == DataModel::Group(done2));
        let path = seq![k] + ps.last().0;
        assert(path[0] == k);
        assert(path.drop_first() =~= ps.last().0);
        lemma_child_lookup_found(done2, k, j);
        assert(child_index(done2, k) == j);
        assert(replay(DataModel::Group(done), pa) == tree_set(
            DataModel::Group(done2),
            path,
            DataModel::Input(ps.last().1),
        ));
        assert(tree_set(DataModel::Group(done2), path, DataModel::Input(ps.last().1))
            == DataModel::Group(done2.update(
            j,
            (k, tree_set(done2[j].1, ps.last().0, DataModel::Input(ps.last().1))),
        )));
        assert(done2[j].1 == replay(done[j].1, ps.drop_last()));
        assert(tree_set(replay(done[j].1, ps.drop_last()), ps.last().0, DataModel::Input(
            ps.last().1)) == replay(done[j].1, ps));
        assert(done2.update(j, (k, replay(done[j].1, ps))) =~= done.update(
            j,
            (k, replay(done[j].1, ps)),
        ));
    }
}

proof fn lemma_replay_tree(m: DataModel)
    requires
        data_wf(m),
        subtree_nonempty(m),
    ensures
        replay(DataModel::Group(Seq::empty()), flat_model(m)) == m,
    decreases m, 0int,
{
    match m {
        DataModel::Input(v) => {
            let ps = flat_model(m);
            assert(ps =~= seq![(Seq::<SegModel>::empty(), v)]);
            assert(ps.drop_last() =~= Seq::<(Seq<SegModel>, Seq<char>)>::empty());
            assert(replay(DataModel::Group(Seq::empty()), ps) == tree_set(
                DataModel::Group(Seq::empty()),
                Seq::empty(),
                DataModel::Input(v),
            ));
        },
        DataModel::Group(cs) => {
            lemma_replay_children(cs, cs.len() as int);
            assert(cs.take(cs.len() as int) =~= cs);
            assert(flat_entries(cs.take(cs.len() as int)) == flat_entries(cs));
        },
    }
}

proof fn lemma_replay_children(cs: Seq<(SegModel, DataModel)>, i: int)
    requires
        0 <= i <= cs.len(),
        keys_distinct(cs),
        forall|t: int| 0 <= t < cs.len() ==> data_wf(#[trigger] cs[t].1),
        forall|t: int| 0 <= t < cs.len() ==> subtree_nonempty(#[trigger] cs[t].1),
    ensures
        replay(DataModel::Group(Seq::empty()), flat_entries(cs.take(i))) == DataModel::Group(
            cs.take(i),
        ),
    decreases cs, i,
{
    if i == 0 {
        assert(cs.take(0) =~= Seq::<(SegModel, DataModel)>::empty());
    } else {
        lemma_replay_children(cs, i - 1);
        let k = cs[i - 1].0;
        let c = cs[i - 1].1;
        let done = cs.take(i - 1);
        assert(cs.take(i).drop_last() =~= done);
        assert(cs.take(i).last() == cs[i - 1]);
        let fp = flat_model(c);
        assert(subtree_nonempty(c));
        lemma_flat_nonempty(c);
        let pa = prefix_all(seq![k], fp);
        assert(flat_entries(cs.take(i)) == flat_entries(done) + pa);
        lemma_replay_concat(
            DataModel::Group(Seq::empty()),
            flat_entries(done),
            pa,
        );
        // first pair creates the child, the rest replay inside it
        let first = fp[0];
        let fprest = fp.drop_first();
        assert(fp =~= seq![first] + fprest);
        lemma_prefix_all_concat(seq![k], seq![first], fprest);
        assert(pa == prefix_all(seq![k], seq![first]) + prefix_all(seq![k], fprest));
        lemma_replay_concat(
            DataModel::Group(done),
            prefix_all(seq![k], seq![first]),
            prefix_all(seq![k], fprest),
        );
        // step one: the first pair pushes a fresh child under k
        let pa1 = prefix_all(seq![k], seq![first]);
        assert(pa1.len() == 1);
        assert(pa1.last() == (seq![k] + first.0, first.1));
        assert(pa1.drop_last() =~= Seq::<(Seq<SegModel>, Seq<char>)>::empty());
        let path = seq![k] + first.0;
        assert(path[0] == k);
        assert(path.drop_first() =~= first.0);
        assert(forall|t: int| 0 <= t < done.len() ==> done[t] == cs[t]);
        assert(forall|t: int| 0 <= t < done.len() ==> done[t].0 != k);
        lemma_child_lookup_none(done, k);
        let c0 = tree_set(DataModel::Group(Seq::empty()), first.0, DataModel::Input(first.1));
        assert(replay(DataModel::Group(done), pa1.drop_last()) == DataModel::Group(done)) by {
            assert(pa1.drop_last().len() == 0);
        }
        assert(replay(DataModel::Group(done), pa1) == tree_set(
            DataModel::Group(done),
            path,
            DataModel::Input(first.1),
        ));
        assert(tree_set(DataModel::Group(done), path, DataModel::Input(first.1))
            == DataModel::Group(done.push((k, c0))));
        // step two: the remaining pairs replay inside that child
        let done1 = done.push((k, c0));
        assert(done1[done.len() as int] == (k, c0));
        assert(forall|t: int| 0 <= t < done.len() ==> done1[t] == done[t]);
        lemma_replay_child(done1, done.len() as int, k, fprest);
        // the replayed child is the round trip of the whole child subtree
        assert(c0 == replay(DataModel::Group(Seq::empty()), seq![first])) by {
            assert(seq![first].drop_last() =~= Seq::<(Seq<SegModel>, Seq<char>)>::empty());
            assert(seq![first].last() == first);
            assert(replay(DataModel::Group(Seq::empty()), seq![first].drop_last())
                == DataModel::Group(Seq::empty())) by {
                assert(seq![first].drop_last().len() == 0);
            }
        }
        lemma_replay_concat(DataModel::Group(Seq::empty()), seq![first], fprest);
        assert(replay(c0, fprest) == replay(DataModel::Group(Seq::empty()), fp));
        assert(data_wf(c));
        lemma_replay_tree(c);
        assert(replay(c0, fprest) == c);
        assert(done1.update(done.len() as int, (k, c)) =~= cs.take(i));
        assert(replay(DataModel::Group(Seq::empty()), flat_entries(cs.take(i)))
            == DataModel::Group(cs.take(i)));
    }
}

/// Round trip between the tree and its flat wire form: flattening a tree
/// and writing the flat pairs back in order rebuilds the same tree, for
/// any tree whose groups key each child once and whose proper sub-groups
/// are all nonempty.
pub proof fn lemma_flat_roundtrip(t: DataModel)
    requires
        data_wf(t),
        no_empty_subgroups(t),
    ensures
        from_flat_model(flat_model(t)) == t,
{
    lemma_from_flat_is_replay(flat_model(t));
    match t {
        DataModel::Input(_) => {
            lemma_replay_tree(t);
        },
        DataModel::Group(cs) => {
            if cs.len() == 0 {
                assert(flat_entries(cs) =~= Seq::<(Seq<SegModel>, Seq<char>)>::empty());
                assert(cs =~= Seq::<(SegModel, DataModel)>::empty());
                assert(replay(DataModel::Group(Seq::empty()), flat_entries(cs))
                    == DataModel::Group(Seq::empty())) by {
                    assert(flat_entries(cs).len() == 0);
                }
            } else {
                assert(subtree_nonempty(t));
                lemma_replay_tree(t);
            }
        },
    }
}

} // verus!
