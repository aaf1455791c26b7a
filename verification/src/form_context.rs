use vstd::prelude::*;

use crate::form_data::leaf_value;
use crate::form_data::tree_set;
use crate::form_data::DataModel;
use crate::form_data::FormData;
use crate::query_string::QueryString;
use crate::query_string::QueryStringPart;
use crate::query_string::SegModel;
use crate::query_string::MAX_DEPTH;

verus! {

broadcast use vstd::std_specs::vec::group_vec_axioms;

/// A monotonic counter value used to decide whether a validation sweep
/// has covered an input since it was created.
pub type Version = u64;

/// Ghost model of a registration tree node.
#[verifier::ext_equal]
pub enum NodeModel {
    Input {
        qs: Seq<SegModel>,
        label: Option<Seq<char>>,
        error: bool,
        disabled: bool,
        validate: int,
        creation: int,
    },
    Group {
        qs: Seq<SegModel>,
        label: Option<Seq<char>>,
        disabled: bool,
        children: Seq<(SegModel, NodeModel)>,
    },
}

/// A live input registered in the form's registration tree.
#[derive(Debug)]
pub struct InputContext {
    qs: QueryString,
    label: Option<String>,
    error: bool,
    disabled: bool,
    validate: Version,
    creation: Version,
}

/// A live group of registered nodes.
#[derive(Debug)]
pub struct GroupContext {
    qs: QueryString,
    label: Option<String>,
    disabled: bool,
    children: Vec<(QueryStringPart, Node)>,
}

/// A node of the registration tree.
#[derive(Debug)]
pub enum Node {
    Input(InputContext),
    Group(GroupContext),
}

pub open spec fn label_model(l: Option<String>) -> Option<Seq<char>> {
    match l {
        Some(s) => Some(s@),
        None => None,
    }
}

pub closed spec fn input_model(i: InputContext) -> NodeModel {
    NodeModel::Input {
        qs: i.qs@,
        label: label_model(i.label),
        error: i.error,
        disabled: i.disabled,
        validate: i.validate as int,
        creation: i.creation as int,
    }
}

pub closed spec fn group_model(g: GroupContext) -> NodeModel {
    NodeModel::Group {
        qs: g.qs@,
        label: label_model(g.label),
        disabled: g.disabled,
        children: children_model(g.children@),
    }
}

pub closed spec fn node_model(n: Node) -> NodeModel
    decreases n,
{
    match n {
        Node::Input(i) => input_model(i),
        Node::Group(g) => NodeModel::Group {
            qs: g.qs@,
            label: label_model(g.label),
            disabled: g.disabled,
            children: children_model(g.children@),
        },
    }
}

pub closed spec fn children_model(v: Seq<(QueryStringPart, Node)>) -> Seq<(SegModel, NodeModel)>
    decreases v,
{
    if v.len() == 0 {
        Seq::empty()
    } else {
        children_model(v.drop_last()).push((v.last().0@, node_model(v.last().1)))
    }
}

impl View for Node {
    type V = NodeModel;

    closed spec fn view(&self) -> NodeModel {
        node_model(*self)
    }
}

impl View for InputContext {
    type V = NodeModel;

    closed spec fn view(&self) -> NodeModel {
        input_model(*self)
    }
}

impl View for GroupContext {
    type V = NodeModel;

    closed spec fn view(&self) -> NodeModel {
        group_model(*self)
    }
}

/// The entries of a group node, entry by entry.
proof fn lemma_children_model(v: Seq<(QueryStringPart, Node)>)
    ensures
        children_model(v).len() == v.len(),
        forall|i: int|
            0 <= i < v.len() ==> children_model(v)[i] == (v[i].0@, node_model(v[i].1)),
    decreases v,
{
    if v.len() > 0 {
        lemma_children_model(v.drop_last());
    }
}

// ---------------------------------------------------------------------------
// Ghost registration tree operations
// ---------------------------------------------------------------------------

/// The child of a group node under a key: the first entry with that key.
pub open spec fn node_lookup(cs: Seq<(SegModel, NodeModel)>, k: SegModel) -> Option<NodeModel>
    decreases cs.len(),
{
    if cs.len() == 0 {
        None
    } else if cs[0].0 == k {
        Some(cs[0].1)
    } else {
        node_lookup(cs.drop_first(), k)
    }
}

/// The position of a key among a group node's entries, or `-1` if absent.
pub open spec fn node_index(cs: Seq<(SegModel, NodeModel)>, k: SegModel) -> int
    decreases cs.len(),
{
    if cs.len() == 0 {
        -1
    } else if cs[0].0 == k {
        0
    } else {
        let r = node_index(cs.drop_first(), k);
        if r < 0 {
            -1
        } else {
            r + 1
        }
    }
}

/// Descends through group nodes along a path.
pub open spec fn reg_get(m: NodeModel, path: Seq<SegModel>) -> Option<NodeModel>
    decreases path.len(),
{
    if path.len() == 0 {
        Some(m)
    } else {
        match m {
            NodeModel::Group { children, .. } => match node_lookup(children, path[0]) {
                Some(c) => reg_get(c, path.drop_first()),
                None => None,
            },
            NodeModel::Input { .. } => None,
        }
    }
}

/// A node's own disabled flag.
pub open spec fn node_disabled(m: NodeModel) -> bool {
    match m {
        NodeModel::Input { disabled, .. } => disabled,
        NodeModel::Group { disabled, .. } => disabled,
    }
}

/// A node's own path.
pub open spec fn node_qs(m: NodeModel) -> Seq<SegModel> {
    match m {
        NodeModel::Input { qs, .. } => qs,
        NodeModel::Group { qs, .. } => qs,
    }
}

/// Whether any input below (or at) this node currently reports an error.
pub open spec fn node_error(m: NodeModel) -> bool
    decreases m,
{
    match m {
        NodeModel::Input { error, .. } => error,
        NodeModel::Group { children, .. } => any_error(children),
    }
}

pub open spec fn any_error(cs: Seq<(SegModel, NodeModel)>) -> bool
    decreases cs,
{
    if cs.len() == 0 {
        false
    } else {
        any_error(cs.drop_last()) || node_error(cs.last().1)
    }
}

/// Whether a validation sweep has covered this input since it was created.
pub open spec fn signal_spec(m: NodeModel) -> bool {
    match m {
        NodeModel::Input { validate, creation, .. } => validate > creation,
        NodeModel::Group { .. } => false,
    }
}

// ---------------------------------------------------------------------------
// Ghost transitions
// ---------------------------------------------------------------------------

/// Removes the entry under `k`, if any.
pub open spec fn remove_child(
    cs: Seq<(SegModel, NodeModel)>,
    k: SegModel,
) -> Seq<(SegModel, NodeModel)> {
    let i = node_index(cs, k);
    if i >= 0 {
        cs.remove(i)
    } else {
        cs
    }
}

/// Replaces or appends the entry under `k`.
pub open spec fn insert_child(
    cs: Seq<(SegModel, NodeModel)>,
    k: SegModel,
    c: NodeModel,
) -> Seq<(SegModel, NodeModel)> {
    remove_child(cs, k).push((k, c))
}

/// A freshly registered input: no label, no error, the validation stamp
/// at zero, and the creation stamp frozen at the current counter.
pub open spec fn fresh_input(qs: Seq<SegModel>, disabled: bool, creation: int) -> NodeModel {
    NodeModel::Input { qs, label: None, error: false, disabled, validate: 0, creation }
}

/// A freshly registered group: no label, no children, the disabled flag
/// inherited from its parent.
pub open spec fn fresh_group(qs: Seq<SegModel>, disabled: bool) -> NodeModel {
    NodeModel::Group { qs, label: None, disabled, children: Seq::empty() }
}

/// Stamps every input below (or at) this node with validation version `v`.
pub open spec fn stamp(m: NodeModel, v: int) -> NodeModel
    decreases m,
{
    match m {
        NodeModel::Input { qs, label, error, disabled, validate, creation } => NodeModel::Input {
            qs,
            label,
            error,
            disabled,
            validate: v,
            creation,
        },
        NodeModel::Group { qs, label, disabled, children } => NodeModel::Group {
            qs,
            label,
            disabled,
            children: stamp_children(children, v),
        },
    }
}

pub open spec fn stamp_children(
    cs: Seq<(SegModel, NodeModel)>,
    v: int,
) -> Seq<(SegModel, NodeModel)>
    decreases cs,
{
    if cs.len() == 0 {
        Seq::empty()
    } else {
        stamp_children(cs.drop_last(), v).push((cs.last().0, stamp(cs.last().1, v)))
    }
}

/// Sets the disabled flag of this node and of everything below it.
pub open spec fn force_disabled(m: NodeModel, d: bool) -> NodeModel
    decreases m,
{
    match m {
        NodeModel::Input { qs, label, error, disabled, validate, creation } => NodeModel::Input {
            qs,
            label,
            error,
            disabled: d,
            validate,
            creation,
        },
        NodeModel::Group { qs, label, disabled, children } => NodeModel::Group {
            qs,
            label,
            disabled: d,
            children: force_children(children, d),
        },
    }
}

pub open spec fn force_children(
    cs: Seq<(SegModel, NodeModel)>,
    d: bool,
) -> Seq<(SegModel, NodeModel)>
    decreases cs,
{
    if cs.len() == 0 {
        Seq::empty()
    } else {
        force_children(cs.drop_last(), d).push((cs.last().0, force_disabled(cs.last().1, d)))
    }
}

/// Stamps the whole subtree at `path` with validation version `v`.
pub open spec fn validate_at(m: NodeModel, path: Seq<SegModel>, v: int) -> NodeModel
    decreases path.len(),
{
    if path.len() == 0 {
        stamp(m, v)
    } else {
        match m {
            NodeModel::Group { qs, label, disabled, children } => {
                let i = node_index(children, path[0]);
                if i >= 0 {
                    NodeModel::Group {
                        qs,
                        label,
                        disabled,
                        children: children.update(
                            i,
                            (path[0], validate_at(children[i].1, path.drop_first(), v)),
                        ),
                    }
                } else {
                    m
                }
            },
            NodeModel::Input { .. } => m,
        }
    }
}

/// Forces the disabled flag of the whole subtree at `path`.
pub open spec fn set_disabled_at(m: NodeModel, path: Seq<SegModel>, d: bool) -> NodeModel
    decreases path.len(),
{
    if path.len() == 0 {
        force_disabled(m, d)
    } else {
        match m {
            NodeModel::Group { qs, label, disabled, children } => {
                let i = node_index(children, path[0]);
                if i >= 0 {
                    NodeModel::Group {
                        qs,
                        label,
                        disabled,
                        children: children.update(
                            i,
                            (path[0], set_disabled_at(children[i].1, path.drop_first(), d)),
                        ),
                    }
                } else {
                    m
                }
            },
            NodeModel::Input { .. } => m,
        }
    }
}

/// Sets the error flag of the input at `path`.
pub open spec fn set_error_at(m: NodeModel, path: Seq<SegModel>, e: bool) -> NodeModel
    decreases path.len(),
{
    if path.len() == 0 {
        match m {
            NodeModel::Input { qs, label, error, disabled, validate, creation } => NodeModel::Input {
                qs,
                label,
                error: e,
                disabled,
                validate,
                creation,
            },
            NodeModel::Group { .. } => m,
        }
    } else {
        match m {
            NodeModel::Group { qs, label, disabled, children } => {
                let i = node_index(children, path[0]);
                if i >= 0 {
                    NodeModel::Group {
                        qs,
                        label,
                        disabled,
                        children: children.update(
                            i,
                            (path[0], set_error_at(children[i].1, path.drop_first(), e)),
                        ),
                    }
                } else {
                    m
                }
            },
            NodeModel::Input { .. } => m,
        }
    }
}

/// Attaches a label to the node at `path`.
pub open spec fn set_label_at(m: NodeModel, path: Seq<SegModel>, l: Seq<char>) -> NodeModel
    decreases path.len(),
{
    if path.len() == 0 {
        match m {
            NodeModel::Input { qs, label, error, disabled, validate, creation } => NodeModel::Input {
                qs,
                label: Some(l),
                error,
                disabled,
                validate,
                creation,
            },
            NodeModel::Group { qs, label, disabled, children } => NodeModel::Group {
                qs,
                label: Some(l),
                disabled,
                children,
            },
        }
    } else {
        match m {
            NodeModel::Group { qs, label, disabled, children } => {
                let i = node_index(children, path[0]);
                if i >= 0 {
                    NodeModel::Group {
                        qs,
                        label,
                        disabled,
                        children: children.update(
                            i,
                            (path[0], set_label_at(children[i].1, path.drop_first(), l)),
                        ),
                    }
                } else {
                    m
                }
            },
            NodeModel::Input { .. } => m,
        }
    }
}

/// Registers `child` under `k` in the group at `parent`, replacing any
/// earlier node registered under the same key.
pub open spec fn register_at(
    m: NodeModel,
    parent: Seq<SegModel>,
    k: SegModel,
    child: NodeModel,
) -> NodeModel
    decreases parent.len(),
{
    if parent.len() == 0 {
        match m {
            NodeModel::Group { qs, label, disabled, children } => NodeModel::Group {
                qs,
                label,
                disabled,
                children: insert_child(children, k, child),
            },
            NodeModel::Input { .. } => m,
        }
    } else {
        match m {
            NodeModel::Group { qs, label, disabled, children } => {
                let i = node_index(children, parent[0]);
                if i >= 0 {
                    NodeModel::Group {
                        qs,
                        label,
                        disabled,
                        children: children.update(
                            i,
                            (parent[0], register_at(children[i].1, parent.drop_first(), k, child)),
                        ),
                    }
                } else {
                    m
                }
            },
            NodeModel::Input { .. } => m,
        }
    }
}

/// Removes the node under `k` from the group at `parent`.
pub open spec fn deregister_at(m: NodeModel, parent: Seq<SegModel>, k: SegModel) -> NodeModel
    decreases parent.len(),
{
    if parent.len() == 0 {
        match m {
            NodeModel::Group { qs, label, disabled, children } => NodeModel::Group {
                qs,
                label,
                disabled,
                children: remove_child(children, k),
            },
            NodeModel::Input { .. } => m,
        }
    } else {
        match m {
            NodeModel::Group { qs, label, disabled, children } => {
                let i = node_index(children, parent[0]);
                if i >= 0 {
                    NodeModel::Group {
                        qs,
                        label,
                        disabled,
                        children: children.update(
                            i,
                            (parent[0], deregister_at(children[i].1, parent.drop_first(), k)),
                        ),
                    }
                } else {
                    m
                }
            },
            NodeModel::Input { .. } => m,
        }
    }
}

proof fn lemma_node_lookup_found(cs: Seq<(SegModel, NodeModel)>, k: SegModel, j: int)
    requires
        0 <= j < cs.len(),
        cs[j].0 == k,
        forall|t: int| 0 <= t < j ==> cs[t].0 != k,
    ensures
        node_lookup(cs, k) == Some(cs[j].1),
        node_index(cs, k) == j,
    decreases j,
{
    if j > 0 {
        lemma_node_lookup_found(cs.drop_first(), k, j - 1);
    }
}

proof fn lemma_node_lookup_none(cs: Seq<(SegModel, NodeModel)>, k: SegModel)
    requires
        forall|t: int| 0 <= t < cs.len() ==> cs[t].0 != k,
    ensures
        node_lookup(cs, k) is None,
        node_index(cs, k) == -1,
    decreases cs.len(),
{
    if cs.len() > 0 {
        lemma_node_lookup_none(cs.drop_first(), k);
    }
}

proof fn lemma_stamp_children(cs: Seq<(SegModel, NodeModel)>, v: int)
    ensures
        stamp_children(cs, v).len() == cs.len(),
        forall|i: int|
            0 <= i < cs.len() ==> stamp_children(cs, v)[i] == (cs[i].0, stamp(cs[i].1, v)),
    decreases cs,
{
    if cs.len() > 0 {
        lemma_stamp_children(cs.drop_last(), v);
    }
}

proof fn lemma_force_children(cs: Seq<(SegModel, NodeModel)>, d: bool)
    ensures
        force_children(cs, d).len() == cs.len(),
        forall|i: int|
            0 <= i < cs.len() ==> force_children(cs, d)[i] == (
                cs[i].0,
                force_disabled(cs[i].1, d),
            ),
    decreases cs,
{
    if cs.len() > 0 {
        lemma_force_children(cs.drop_last(), d);
    }
}

// ---------------------------------------------------------------------------
// Node operations
// ---------------------------------------------------------------------------

/// One mutation of the registration tree, applied at a path.
enum TreeOp {
    Validate(Version),
    SetDisabled(bool),
    SetError(bool),
    SetLabel(String),
    Register(QueryStringPart, Node),
    Deregister(QueryStringPart),
}

/// What one mutation does to the subtree at `path`.
spec fn op_at(m: NodeModel, path: Seq<SegModel>, op: TreeOp) -> NodeModel {
    match op {
        TreeOp::Validate(v) => validate_at(m, path, v as int),
        TreeOp::SetDisabled(d) => set_disabled_at(m, path, d),
        TreeOp::SetError(e) => set_error_at(m, path, e),
        TreeOp::SetLabel(l) => set_label_at(m, path, l@),
        TreeOp::Register(k, c) => register_at(m, path, k@, c@),
        TreeOp::Deregister(k) => deregister_at(m, path, k@),
    }
}

impl Node {
    fn placeholder() -> (r: Node)
        ensures
            r@ == fresh_group(Seq::empty(), false),
    {
        let r = Node::Group(
            GroupContext {
                qs: QueryString::new(),
                label: None,
                disabled: false,
                children: Vec::new(),
            },
        );
        proof {
            assert(children_model(Seq::<(QueryStringPart, Node)>::empty())
                =~= Seq::<(SegModel, NodeModel)>::empty());
            assert(r@ =~= fresh_group(Seq::empty(), false));
        }
        r
    }

    /// The path this node is registered under.
    pub fn qs(&self) -> (r: QueryString)
        ensures
            r@ == node_qs(self@),
    {
        match self {
            Node::Input(i) => i.qs.clone(),
            Node::Group(g) => g.qs.clone(),
        }
    }

    pub fn as_group(&self) -> (r: Option<&GroupContext>)
        ensures
            (r is Some) == (self@ is Group),
            r matches Some(g) ==> g@ == self@,
    {
        match self {
            Node::Group(g) => Some(g),
            _ => None,
        }
    }

    pub fn as_input(&self) -> (r: Option<&InputContext>)
        ensures
            (r is Some) == (self@ is Input),
            r matches Some(i) ==> i@ == self@,
    {
        match self {
            Node::Input(i) => Some(i),
            _ => None,
        }
    }

    /// Unwraps a group node; asking a group of an input is a precondition
    /// violation.
    pub fn into_group(self) -> (r: GroupContext)
        requires
            self@ is Group,
        ensures
            r@ == self@,
    {
        match self {
            Node::Group(g) => g,
            Node::Input(i) => {
                proof {
                    assert(false);
                }
                GroupContext {
                    qs: QueryString::new(),
                    label: None,
                    disabled: false,
                    children: Vec::new(),
                }
            },
        }
    }

    /// Unwraps an input node; asking an input of a group is a precondition
    /// violation.
    pub fn into_input(self) -> (r: InputContext)
        requires
            self@ is Input,
        ensures
            r@ == self@,
    {
        match self {
            Node::Input(i) => i,
            Node::Group(_) => {
                proof {
                    assert(false);
                }
                InputContext {
                    qs: QueryString::new(),
                    label: None,
                    error: false,
                    disabled: false,
                    validate: 0,
                    creation: 0,
                }
            },
        }
    }

    #[verifier::loop_isolation(false)]
    fn get_at(&self, qs: &QueryString, i: usize) -> (r: Option<&Node>)
        requires
            i <= qs@.len(),
        ensures
            (r is Some) == (reg_get(self@, qs@.skip(i as int)) is Some),
            r matches Some(n) ==> reg_get(self@, qs@.skip(i as int)) == Some(n@),
        decreases qs@.len() - i,
    {
        let ghost path = qs@.skip(i as int);
        if i == qs.len() {
            return Some(self);
        }
        proof {
            assert(path[0] == qs@[i as int]);
            assert(path.drop_first() =~= qs@.skip(i + 1));
        }
        match self {
            Node::Input(_) => None,
            Node::Group(g) => {
                let key = qs.part(i);
                let n: usize = g.children.len();
                proof {
                    lemma_children_model(g.children@);
                }
                let mut j: usize = 0;
                while j < n
                    invariant
                        j <= n,
                        forall|t: int| 0 <= t < j ==> g.children@[t].0@ != qs@[i as int],
                    decreases n - j,
                {
                    if g.children[j].0 == *key {
                        proof {
                            lemma_node_lookup_found(
                                children_model(g.children@),
                                qs@[i as int],
                                j as int,
                            );
                        }
                        return g.children[j].1.get_at(qs, i + 1);
                    }
                    j += 1;
                }
                proof {
                    lemma_node_lookup_none(children_model(g.children@), qs@[i as int]);
                }
                None
            },
        }
    }

    /// The node at `qs` below this one, if registered.
    pub fn get(&self, qs: &QueryString) -> (r: Option<&Node>)
        ensures
            (r is Some) == (reg_get(self@, qs@) is Some),
            r matches Some(n) ==> reg_get(self@, qs@) == Some(n@),
    {
        proof {
            assert(qs@.skip(0) =~= qs@);
        }
        self.get_at(qs, 0)
    }

    #[verifier::loop_isolation(false)]
    fn stamped(self, v: Version) -> (r: Node)
        ensures
            r@ == stamp(self@, v as int),
        decreases self,
    {
        match self {
            Node::Input(inp) => {
                let InputContext { qs, label, error, disabled, validate, creation } = inp;
                Node::Input(InputContext { qs, label, error, disabled, validate: v, creation })
            },
            Node::Group(g) => Node::Group(g.stamped(v)),
        }
    }

    #[verifier::loop_isolation(false)]
    fn with_disabled_all(self, d: bool) -> (r: Node)
        ensures
            r@ == force_disabled(self@, d),
        decreases self,
    {
        match self {
            Node::Input(inp) => {
                let InputContext { qs, label, error, disabled, validate, creation } = inp;
                Node::Input(InputContext { qs, label, error, disabled: d, validate, creation })
            },
            Node::Group(g) => Node::Group(g.forced_disabled(d)),
        }
    }

    /// Applies one mutation at `qs[i..]` below this node.
    #[verifier::loop_isolation(false)]
    fn apply_in(self, qs: &QueryString, i: usize, op: TreeOp) -> (r: Node)
        requires
            i <= qs@.len(),
        ensures
            r@ == op_at(self@, qs@.skip(i as int), op),
        decreases qs@.len() - i,
    {
        let ghost path = qs@.skip(i as int);
        if i == qs.len() {
            return match op {
                TreeOp::Validate(v) => self.stamped(v),
                TreeOp::SetDisabled(d) => self.with_disabled_all(d),
                TreeOp::SetError(e) => match self {
                    Node::Input(inp) => {
                        let InputContext { qs: iq, label, error, disabled, validate, creation } =
                            inp;
                        Node::Input(
                            InputContext {
                                qs: iq,
                                label,
                                error: e,
                                disabled,
                                validate,
                                creation,
                            },
                        )
                    },
                    Node::Group(g) => Node::Group(g),
                },
                TreeOp::SetLabel(l) => match self {
                    Node::Input(inp) => {
                        let InputContext { qs: iq, label, error, disabled, validate, creation } =
                            inp;
                        Node::Input(
                            InputContext {
                                qs: iq,
                                label: Some(l),
                                error,
                                disabled,
                                validate,
                                creation,
                            },
                        )
                    },
                    Node::Group(g) => {
                        let GroupContext { qs: gq, label, disabled, children } = g;
                        Node::Group(GroupContext { qs: gq, label: Some(l), disabled, children })
                    },
                },
                TreeOp::Register(k, c) => match self {
                    Node::Group(g) => {
                        let GroupContext { qs: gq, label, disabled, mut children } = g;
                        let ghost orig = children@;
                        let ghost cs = children_model(orig);
                        let n: usize = children.len();
                        proof {
                            lemma_children_model(orig);
                        }
                        let mut j: usize = 0;
                        let mut found = false;
                        while j < n && !found
                            invariant
                                j <= n,
                                children@ == orig,
                                !found ==> forall|t: int| 0 <= t < j ==> orig[t].0@ != k@,
                                found ==> j < n && orig[j as int].0@ == k@ && forall|t: int|
                                    0 <= t < j ==> orig[t].0@ != k@,
                            decreases n - j + (if found { 0int } else { 1int }),
                        {
                            if children[j].0 == k {
                                found = true;
                            } else {
                                j += 1;
                            }
                        }
                        if found {
                            proof {
                                lemma_node_lookup_found(cs, k@, j as int);
                            }
                            children.remove(j);
                            proof {
                                lemma_children_model(children@);
                                assert(children_model(children@) =~= cs.remove(j as int));
                            }
                        } else {
                            proof {
                                lemma_node_lookup_none(cs, k@);
                            }
                        }
                        let ghost removed = children_model(children@);
                        children.push((k, c));
                        proof {
                            lemma_children_model(children@);
                            assert(children_model(children@) =~= removed.push((k@, c@)));
                            assert(children_model(children@) =~= insert_child(cs, k@, c@));
                        }
                        Node::Group(GroupContext { qs: gq, label, disabled, children })
                    },
                    Node::Input(inp) => Node::Input(inp),
                },
                TreeOp::Deregister(k) => match self {
                    Node::Group(g) => {
                        let GroupContext { qs: gq, label, disabled, mut children } = g;
                        let ghost orig = children@;
                        let ghost cs = children_model(orig);
                        let n: usize = children.len();
                        proof {
                            lemma_children_model(orig);
                        }
                        let mut j: usize = 0;
                        let mut found = false;
                        while j < n && !found
                            invariant
                                j <= n,
                                children@ == orig,
                                !found ==> forall|t: int| 0 <= t < j ==> orig[t].0@ != k@,
                                found ==> j < n && orig[j as int].0@ == k@ && forall|t: int|
                                    0 <= t < j ==> orig[t].0@ != k@,
                            decreases n - j + (if found { 0int } else { 1int }),
                        {
                            if children[j].0 == k {
                                found = true;
                            } else {
                                j += 1;
                            }
                        }
                        if found {
                            proof {
                                lemma_node_lookup_found(cs, k@, j as int);
                            }
                            children.remove(j);
                            proof {
                                lemma_children_model(children@);
                                assert(children_model(children@) =~= cs.remove(j as int));
                                assert(children_model(children@) =~= remove_child(cs, k@));
                            }
                        } else {
                            proof {
                                lemma_node_lookup_none(cs, k@);
                                assert(children_model(children@) =~= remove_child(cs, k@));
                            }
                        }
                        Node::Group(GroupContext { qs: gq, label, disabled, children })
                    },
                    Node::Input(inp) => Node::Input(inp),
                },
            };
        }
        proof {
            assert(path[0] == qs@[i as int]);
            assert(path.drop_first() =~= qs@.skip(i + 1));
        }
        match self {
            Node::Input(inp) => Node::Input(inp),
            Node::Group(g) => {
                let GroupContext { qs: gq, label, disabled, mut children } = g;
                let ghost orig = children@;
                let ghost cs = children_model(orig);
                let key = qs.part(i);
                let n: usize = children.len();
                proof {
                    lemma_children_model(orig);
                }
                let mut j: usize = 0;
                let mut found = false;
                while j < n && !found
                    invariant
                        j <= n,
                        children@ == orig,
                        !found ==> forall|t: int| 0 <= t < j ==> orig[t].0@ != qs@[i as int],
                        found ==> j < n && orig[j as int].0@ == qs@[i as int] && forall|t: int|
                            0 <= t < j ==> orig[t].0@ != qs@[i as int],
                    decreases n - j + (if found { 0int } else { 1int }),
                {
                    if children[j].0 == *key {
                        found = true;
                    } else {
                        j += 1;
                    }
                }
                if found {
                    proof {
                        lemma_node_lookup_found(cs, qs@[i as int], j as int);
                    }
                    let mut tmp = Node::placeholder();
                    core::mem::swap(&mut children[j].1, &mut tmp);
                    tmp = tmp.apply_in(qs, i + 1, op);
                    core::mem::swap(&mut children[j].1, &mut tmp);
                    proof {
                        lemma_children_model(children@);
                        assert(children_model(children@) =~= cs.update(
                            j as int,
                            (qs@[i as int], op_at(cs[j as int].1, qs@.skip(i + 1), op)),
                        ));
                    }
                } else {
                    proof {
                        lemma_node_lookup_none(cs, qs@[i as int]);
                    }
                }
                Node::Group(GroupContext { qs: gq, label, disabled, children })
            },
        }
    }
}

impl GroupContext {
    #[verifier::loop_isolation(false)]
    fn stamped(self, v: Version) -> (r: GroupContext)
        ensures
            r@ == stamp(self@, v as int),
        decreases self,
    {
        let GroupContext { qs, label, disabled, mut children } = self;
        let ghost orig = children@;
        let n: usize = children.len();
        proof {
            lemma_children_model(orig);
            lemma_stamp_children(children_model(orig), v as int);
        }
        for j in 0..n
            invariant
                n == children@.len(),
                children@.len() == orig.len(),
                forall|t: int|
                    j <= t < n ==> children@[t] == orig[t],
                forall|t: int|
                    0 <= t < j ==> children@[t].0 == orig[t].0 && node_model(children@[t].1)
                        == stamp(node_model(orig[t].1), v as int),
        {
            let mut tmp = Node::placeholder();
            core::mem::swap(&mut children[j].1, &mut tmp);
            proof {
                assert(tmp == orig[j as int].1);
                assert(decreases_to!(self => orig[j as int].1));
            }
            tmp = tmp.stamped(v);
            core::mem::swap(&mut children[j].1, &mut tmp);
        }
        let r = GroupContext { qs, label, disabled, children };
        proof {
            lemma_children_model(children@);
            assert(children_model(children@) =~= stamp_children(children_model(orig), v as int));
        }
        r
    }

    #[verifier::loop_isolation(false)]
    fn forced_disabled(self, d: bool) -> (r: GroupContext)
        ensures
            r@ == force_disabled(self@, d),
        decreases self,
    {
        let GroupContext { qs, label, disabled, mut children } = self;
        let ghost orig = children@;
        let n: usize = children.len();
        proof {
            lemma_children_model(orig);
            lemma_force_children(children_model(orig), d);
        }
        for j in 0..n
            invariant
                n == children@.len(),
                children@.len() == orig.len(),
                forall|t: int|
                    j <= t < n ==> children@[t] == orig[t],
                forall|t: int|
                    0 <= t < j ==> children@[t].0 == orig[t].0 && node_model(children@[t].1)
                        == force_disabled(node_model(orig[t].1), d),
        {
            let mut tmp = Node::placeholder();
            core::mem::swap(&mut children[j].1, &mut tmp);
            proof {
                assert(tmp == orig[j as int].1);
                assert(decreases_to!(self => orig[j as int].1));
            }
            tmp = tmp.with_disabled_all(d);
            core::mem::swap(&mut children[j].1, &mut tmp);
        }
        let r = GroupContext { qs, label, disabled: d, children };
        proof {
            lemma_children_model(children@);
            assert(children_model(children@) =~= force_children(children_model(orig), d));
        }
        r
    }
}

// ---------------------------------------------------------------------------
// Reading nodes
// ---------------------------------------------------------------------------

/// A node's label, if one was attached.
pub open spec fn node_label(m: NodeModel) -> Option<Seq<char>> {
    match m {
        NodeModel::Input { label, .. } => label,
        NodeModel::Group { label, .. } => label,
    }
}

#[verifier::loop_isolation(false)]
fn node_error_exec(n: &Node) -> (r: bool)
    ensures
        r == node_error(n@),
    decreases n,
{
    match n {
        Node::Input(i) => i.error,
        Node::Group(g) => {
            let ghost cs = children_model(g.children@);
            let m: usize = g.children.len();
            proof {
                lemma_children_model(g.children@);
                assert(cs.take(0) =~= Seq::<(SegModel, NodeModel)>::empty());
            }
            let mut acc = false;
            for j in 0..m
                invariant
                    m == g.children@.len(),
                    acc == any_error(cs.take(j as int)),
            {
                proof {
                    assert(cs.take(j + 1).drop_last() =~= cs.take(j as int));
                    assert(cs.take(j + 1).last() == cs[j as int]);
                }
                if node_error_exec(&g.children[j].1) {
                    acc = true;
                }
            }
            proof {
                assert(cs.take(m as int) =~= cs);
            }
            acc
        },
    }
}

impl InputContext {
    /// Whether this input currently reports a validation error.
    pub fn error(&self) -> (r: bool)
        ensures
            r == node_error(self@),
    {
        self.error
    }

    /// This input's own disabled flag, inherited from its parent at
    /// registration and kept in step by [`BaseGroupContext::set_disabled`].
    pub fn disabled(&self) -> (r: bool)
        ensures
            r == node_disabled(self@),
    {
        self.disabled
    }

    /// Whether a validation sweep has covered this input since it was
    /// created.
    pub fn validate_signal(&self) -> (r: bool)
        ensures
            r == signal_spec(self@),
    {
        self.validate > self.creation
    }

    /// The path this input is registered under.
    pub fn qs(&self) -> (r: QueryString)
        ensures
            r@ == node_qs(self@),
    {
        self.qs.clone()
    }

    pub fn label(&self) -> (r: &Option<String>)
        ensures
            label_model(*r) == node_label(self@),
    {
        &self.label
    }

    /// The raw string this input holds in the form store.
    pub fn raw_value(&self, data: &FormData) -> (r: String)
        ensures
            r@ == leaf_value(data@, node_qs(self@)),
    {
        data.raw_value(&self.qs)
    }

    /// Writes this input's raw string into the form store.
    pub fn set_raw_value(&self, data: &mut FormData, value: String)
        ensures
            final(data)@ == tree_set(old(data)@, node_qs(self@), DataModel::Input(value@)),
    {
        data.set_raw_value(&self.qs, value);
    }
}

impl GroupContext {
    /// Whether any input below this group currently reports an error.
    /// Recomputed on every call, never cached.
    #[verifier::loop_isolation(false)]
    pub fn error(&self) -> (r: bool)
        ensures
            r == node_error(self@),
    {
        let ghost cs = children_model(self.children@);
        let m: usize = self.children.len();
        proof {
            lemma_children_model(self.children@);
            assert(cs.take(0) =~= Seq::<(SegModel, NodeModel)>::empty());
        }
        let mut acc = false;
        for j in 0..m
            invariant
                m == self.children@.len(),
                acc == any_error(cs.take(j as int)),
        {
            proof {
                assert(cs.take(j + 1).drop_last() =~= cs.take(j as int));
                assert(cs.take(j + 1).last() == cs[j as int]);
            }
            if node_error_exec(&self.children[j].1) {
                acc = true;
            }
        }
        proof {
            assert(cs.take(m as int) =~= cs);
        }
        acc
    }

    /// This group's own disabled flag.
    pub fn disabled(&self) -> (r: bool)
        ensures
            r == node_disabled(self@),
    {
        self.disabled
    }

    /// The path this group is registered under.
    pub fn qs(&self) -> (r: QueryString)
        ensures
            r@ == node_qs(self@),
    {
        self.qs.clone()
    }

    pub fn label(&self) -> (r: &Option<String>)
        ensures
            label_model(*r) == node_label(self@),
    {
        &self.label
    }

    /// The registered children of this group, in registration order.
    pub fn nodes(&self) -> (r: &Vec<(QueryStringPart, Node)>)
        ensures
            self@ matches NodeModel::Group { children, .. } && children_model(r@) == children,
    {
        &self.children
    }

    /// The inferred array length of this group's subtree of the store.
    pub fn len(&self, data: &FormData) -> (r: Option<usize>)
        requires
            crate::form_data::arr_len_at(data@, node_qs(self@)) matches Some(n) ==> n
                <= usize::MAX as int,
        ensures
            (r is Some) == (crate::form_data::arr_len_at(data@, node_qs(self@)) is Some),
            r matches Some(n) ==> crate::form_data::arr_len_at(data@, node_qs(self@)) == Some(
                n as int),
    {
        data.len(&self.qs)
    }

    /// The subtree of the store this group is bound to, if present.
    pub fn raw_value(&self, data: &FormData) -> (r: Option<crate::form_data::Data>)
        ensures
            (r is Some) == (crate::form_data::tree_get(data@, node_qs(self@)) is Some),
            r matches Some(d) ==> crate::form_data::tree_get(data@, node_qs(self@)) == Some(d@),
    {
        data.get(&self.qs)
    }

    /// Replaces the subtree of the store this group is bound to.
    pub fn set_raw_value(&self, data: &mut FormData, value: crate::form_data::Data)
        ensures
            final(data)@ == tree_set(old(data)@, node_qs(self@), value@),
    {
        data.set(&self.qs, value);
    }
}

// ---------------------------------------------------------------------------
// The root of the registration tree
// ---------------------------------------------------------------------------

/// The root of a form's registration tree, owning every registered node
/// and the form's monotonic validation version counter.
#[derive(Debug)]
pub struct BaseGroupContext {
    root: Node,
    version: Version,
}

impl View for BaseGroupContext {
    type V = NodeModel;

    closed spec fn view(&self) -> NodeModel {
        self.root@
    }
}

impl BaseGroupContext {
    /// The current value of the validation version counter.
    pub closed spec fn spec_version(&self) -> int {
        self.version as int
    }

    /// A fresh registration tree: an empty, enabled root group and the
    /// version counter at zero.
    pub fn new() -> (r: Self)
        ensures
            r@ == fresh_group(Seq::empty(), false),
            r.spec_version() == 0,
    {
        let r = BaseGroupContext { root: Node::placeholder(), version: 0 };
        proof {
            assert(children_model(Seq::<(QueryStringPart, Node)>::empty())
                =~= Seq::<(SegModel, NodeModel)>::empty());
            assert(r@ =~= fresh_group(Seq::empty(), false));
        }
        r
    }

    /// Hands out the root as a plain group.
    pub fn to_group_context(self) -> (r: GroupContext)
        requires
            self@ is Group,
        ensures
            r@ == self@,
    {
        self.root.into_group()
    }

    /// The node registered at `at`, if any.
    pub fn get(&self, at: &QueryString) -> (r: Option<&Node>)
        ensures
            (r is Some) == (reg_get(self@, at@) is Some),
            r matches Some(n) ==> reg_get(self@, at@) == Some(n@),
    {
        self.root.get(at)
    }

    fn apply(&mut self, at: &QueryString, op: TreeOp)
        ensures
            final(self)@ == op_at(old(self)@, at@, op),
            final(self).spec_version() == old(self).spec_version(),
    {
        let mut tmp = Node::placeholder();
        core::mem::swap(&mut self.root, &mut tmp);
        tmp = tmp.apply_in(at, 0, op);
        core::mem::swap(&mut self.root, &mut tmp);
        proof {
            assert(at@.skip(0) =~= at@);
        }
    }

    /// Registers a fresh input under `bind` in the group at `parent`. The
    /// input inherits the group's disabled flag and freezes the current
    /// version counter as its creation stamp; the counter then advances.
    pub fn register_input(&mut self, parent: &QueryString, bind: &QueryStringPart) -> (r:
        QueryString)
        requires
            reg_get(old(self)@, parent@) matches Some(NodeModel::Group { .. }),
            parent@.len() < MAX_DEPTH,
            old(self).spec_version() < u64::MAX,
        ensures
            reg_get(old(self)@, parent@) matches Some(NodeModel::Group { disabled: pd, .. })
                ==> final(self)@ == register_at(
                old(self)@,
                parent@,
                bind@,
                fresh_input(parent@.push(bind@), pd, old(self).spec_version()),
            ),
            final(self).spec_version() == old(self).spec_version() + 1,
            r@ == parent@.push(bind@),
    {
        let pd: bool = match self.get(parent) {
            Some(n) => match n {
                Node::Group(g) => g.disabled,
                Node::Input(_) => {
                    proof {
                        assert(false);
                    }
                    false
                },
            },
            None => {
                proof {
                    assert(false);
                }
                false
            },
        };
        let child_qs = parent.clone().add(bind.clone());
        let inp = InputContext {
            qs: child_qs.clone(),
            label: None,
            error: false,
            disabled: pd,
            validate: 0,
            creation: self.version,
        };
        proof {
            assert(input_model(inp) =~= fresh_input(
                parent@.push(bind@),
                pd,
                old(self).spec_version(),
            ));
        }
        self.apply(parent, TreeOp::Register(bind.clone(), Node::Input(inp)));
        self.version = self.version + 1;
        child_qs
    }

    /// Registers a fresh group under `bind` in the group at `parent`,
    /// inheriting the parent's disabled flag.
    pub fn register_group(&mut self, parent: &QueryString, bind: &QueryStringPart) -> (r:
        QueryString)
        requires
            reg_get(old(self)@, parent@) matches Some(NodeModel::Group { .. }),
            parent@.len() < MAX_DEPTH,
        ensures
            reg_get(old(self)@, parent@) matches Some(NodeModel::Group { disabled: pd, .. })
                ==> final(self)@ == register_at(
                old(self)@,
                parent@,
                bind@,
                fresh_group(parent@.push(bind@), pd),
            ),
            final(self).spec_version() == old(self).spec_version(),
            r@ == parent@.push(bind@),
    {
        let pd: bool = match self.get(parent) {
            Some(n) => match n {
                Node::Group(g) => g.disabled,
                Node::Input(_) => {
                    proof {
                        assert(false);
                    }
                    false
                },
            },
            None => {
                proof {
                    assert(false);
                }
                false
            },
        };
        let child_qs = parent.clone().add(bind.clone());
        let grp = GroupContext {
            qs: child_qs.clone(),
            label: None,
            disabled: pd,
            children: Vec::new(),
        };
        proof {
            assert(group_model(grp) =~= fresh_group(parent@.push(bind@), pd));
        }
        self.apply(parent, TreeOp::Register(bind.clone(), Node::Group(grp)));
        child_qs
    }

    /// Removes the node registered under `bind` in the group at `parent`,
    /// together with all of its state; safe to call when no such node
    /// exists.
    pub fn deregister(&mut self, parent: &QueryString, bind: &QueryStringPart)
        requires
            reg_get(old(self)@, parent@) matches Some(NodeModel::Group { .. }),
        ensures
            final(self)@ == deregister_at(old(self)@, parent@, bind@),
            final(self).spec_version() == old(self).spec_version(),
    {
        self.apply(parent, TreeOp::Deregister(bind.clone()));
    }

    /// Stamps every input at or below `at` with the current version
    /// counter, then advances the counter.
    pub fn validate(&mut self, at: &QueryString)
        requires
            reg_get(old(self)@, at@) is Some,
            old(self).spec_version() < u64::MAX,
        ensures
            final(self)@ == validate_at(old(self)@, at@, old(self).spec_version()),
            final(self).spec_version() == old(self).spec_version() + 1,
    {
        let v = self.version;
        self.apply(at, TreeOp::Validate(v));
        self.version = v + 1;
    }

    /// Forces the disabled flag of the whole subtree at `at`.
    pub fn set_disabled(&mut self, at: &QueryString, disabled: bool)
        requires
            reg_get(old(self)@, at@) is Some,
        ensures
            final(self)@ == set_disabled_at(old(self)@, at@, disabled),
            final(self).spec_version() == old(self).spec_version(),
    {
        self.apply(at, TreeOp::SetDisabled(disabled));
    }

    /// Sets the error flag of the input at `at`.
    pub fn set_error(&mut self, at: &QueryString, has_error: bool)
        requires
            reg_get(old(self)@, at@) matches Some(NodeModel::Input { .. }),
        ensures
            final(self)@ == set_error_at(old(self)@, at@, has_error),
            final(self).spec_version() == old(self).spec_version(),
    {
        self.apply(at, TreeOp::SetError(has_error));
    }

    /// Attaches a label to the node at `at`.
    pub fn add_label(&mut self, at: &QueryString, label: String)
        requires
            reg_get(old(self)@, at@) is Some,
        ensures
            final(self)@ == set_label_at(old(self)@, at@, label@),
            final(self).spec_version() == old(self).spec_version(),
    {
        self.apply(at, TreeOp::SetLabel(label));
    }

    /// Whether any input at or below `at` currently reports an error.
    pub fn error(&self, at: &QueryString) -> (r: bool)
        requires
            reg_get(self@, at@) is Some,
        ensures
            reg_get(self@, at@) matches Some(n) ==> r == node_error(n),
    {
        match self.get(at) {
            Some(n) => node_error_exec(n),
            None => {
                proof {
                    assert(false);
                }
                false
            },
        }
    }

    /// The own disabled flag of the node at `at`.
    pub fn disabled(&self, at: &QueryString) -> (r: bool)
        requires
            reg_get(self@, at@) is Some,
        ensures
            reg_get(self@, at@) matches Some(n) ==> r == node_disabled(n),
    {
        match self.get(at) {
            Some(n) => match n {
                Node::Input(i) => i.disabled,
                Node::Group(g) => g.disabled,
            },
            None => {
                proof {
                    assert(false);
                }
                false
            },
        }
    }

    /// Whether a validation sweep has covered the input at `at` since it
    /// was created.
    pub fn validate_signal(&self, at: &QueryString) -> (r: bool)
        requires
            reg_get(self@, at@) matches Some(NodeModel::Input { .. }),
        ensures
            reg_get(self@, at@) matches Some(n) ==> r == signal_spec(n),
    {
        match self.get(at) {
            Some(n) => match n {
                Node::Input(i) => i.validate > i.creation,
                Node::Group(_) => {
                    proof {
                        assert(false);
                    }
                    false
                },
            },
            None => {
                proof {
                    assert(false);
                }
                false
            },
        }
    }
}

// ---------------------------------------------------------------------------
// Laws of the registration tree
// ---------------------------------------------------------------------------

/// Whether every group in the tree registers each key at most once.
pub open spec fn distinct_keys(cs: Seq<(SegModel, NodeModel)>) -> bool {
    forall|i: int, j: int| 0 <= i < j < cs.len() ==> cs[i].0 != cs[j].0
}

pub open spec fn reg_distinct(m: NodeModel) -> bool
    decreases m,
{
    match m {
        NodeModel::Input { .. } => true,
        NodeModel::Group { children, .. } => distinct_keys(children) && forall|i: int|
            0 <= i < children.len() ==> reg_distinct(#[trigger] children[i].1),
    }
}

proof fn lemma_index_lookup_props(cs: Seq<(SegModel, NodeModel)>, k: SegModel)
    ensures
        (node_index(cs, k) >= 0) == (node_lookup(cs, k) is Some),
        node_index(cs, k) >= 0 ==> 0 <= node_index(cs, k) < cs.len() && cs[node_index(cs, k)].0
            == k && (forall|t: int| 0 <= t < node_index(cs, k) ==> cs[t].0 != k) && node_lookup(
            cs,
            k,
        ) == Some(cs[node_index(cs, k)].1),
        node_index(cs, k) < 0 ==> forall|t: int| 0 <= t < cs.len() ==> cs[t].0 != k,
    decreases cs.len(),
{
    if cs.len() > 0 && cs[0].0 != k {
        lemma_index_lookup_props(cs.drop_first(), k);
        let r = node_index(cs.drop_first(), k);
        if r >= 0 {
            assert(cs[r + 1] == cs.drop_first()[r]);
            assert(forall|t: int| 1 <= t < r + 1 ==> cs[t] == cs.drop_first()[t - 1]);
        } else {
            assert(forall|t: int| 1 <= t < cs.len() ==> cs[t] == cs.drop_first()[t - 1]);
        }
    }
}

/// Descending a concatenated path descends the two parts in turn.
proof fn lemma_reg_get_compose(m: NodeModel, p: Seq<SegModel>, q: Seq<SegModel>)
    ensures
        reg_get(m, p + q) == (match reg_get(m, p) {
            Some(n) => reg_get(n, q),
            None => None::<NodeModel>,
        }),
    decreases p.len(),
{
    if p.len() == 0 {
        assert(p + q =~= q);
    } else {
        assert((p + q)[0] == p[0]);
        assert((p + q).drop_first() =~= p.drop_first() + q);
        match m {
            NodeModel::Group { children, .. } => {
                match node_lookup(children, p[0]) {
                    Some(c) => {
                        lemma_reg_get_compose(c, p.drop_first(), q);
                    },
                    None => {},
                }
            },
            NodeModel::Input { .. } => {},
        }
    }
}

proof fn lemma_lookup_stamp(cs: Seq<(SegModel, NodeModel)>, k: SegModel, v: int)
    ensures
        node_lookup(stamp_children(cs, v), k) == (match node_lookup(cs, k) {
            Some(c) => Some(stamp(c, v)),
            None => None::<NodeModel>,
        }),
    decreases cs.len(),
{
    lemma_stamp_children(cs, v);
    if cs.len() > 0 {
        lemma_stamp_children(cs.drop_first(), v);
        assert(stamp_children(cs, v)[0] == (cs[0].0, stamp(cs[0].1, v)));
        if cs[0].0 != k {
            assert(stamp_children(cs, v).drop_first() =~= stamp_children(cs.drop_first(), v));
            lemma_lookup_stamp(cs.drop_first(), k, v);
        }
    }
}

proof fn lemma_lookup_force(cs: Seq<(SegModel, NodeModel)>, k: SegModel, d: bool)
    ensures
        node_lookup(force_children(cs, d), k) == (match node_lookup(cs, k) {
            Some(c) => Some(force_disabled(c, d)),
            None => None::<NodeModel>,
        }),
    decreases cs.len(),
{
    lemma_force_children(cs, d);
    if cs.len() > 0 {
        lemma_force_children(cs.drop_first(), d);
        assert(force_children(cs, d)[0] == (cs[0].0, force_disabled(cs[0].1, d)));
        if cs[0].0 != k {
            assert(force_children(cs, d).drop_first() =~= force_children(cs.drop_first(), d));
            lemma_lookup_force(cs.drop_first(), k, d);
        }
    }
}

/// Reading below a stamped subtree reads the stamped node.
proof fn lemma_get_stamp(n: NodeModel, q: Seq<SegModel>, v: int)
    ensures
        reg_get(stamp(n, v), q) == (match reg_get(n, q) {
            Some(c) => Some(stamp(c, v)),
            None => None::<NodeModel>,
        }),
    decreases q.len(),
{
    if q.len() > 0 {
        match n {
            NodeModel::Group { children, .. } => {
                lemma_lookup_stamp(children, q[0], v);
                match node_lookup(children, q[0]) {
                    Some(c) => {
                        lemma_get_stamp(c, q.drop_first(), v);
                    },
                    None => {},
                }
            },
            NodeModel::Input { .. } => {},
        }
    }
}

/// Reading below a force-disabled subtree reads the force-disabled node.
proof fn lemma_get_force(n: NodeModel, q: Seq<SegModel>, d: bool)
    ensures
        reg_get(force_disabled(n, d), q) == (match reg_get(n, q) {
            Some(c) => Some(force_disabled(c, d)),
            None => None::<NodeModel>,
        }),
    decreases q.len(),
{
    if q.len() > 0 {
        match n {
            NodeModel::Group { children, .. } => {
                lemma_lookup_force(children, q[0], d);
                match node_lookup(children, q[0]) {
                    Some(c) => {
                        lemma_get_force(c, q.drop_first(), d);
                    },
                    None => {},
                }
            },
            NodeModel::Input { .. } => {},
        }
    }
}

proof fn lemma_validate_factor(m: NodeModel, p: Seq<SegModel>, q: Seq<SegModel>, v: int)
    requires
        reg_get(m, p) is Some,
    ensures
        reg_get(validate_at(m, p + q, v), p) == Some(
            validate_at(reg_get(m, p).unwrap(), q, v),
        ),
    decreases p.len(),
{
    if p.len() == 0 {
        assert(p + q =~= q);
    } else {
        assert((p + q)[0] == p[0]);
        assert((p + q).drop_first() =~= p.drop_first() + q);
        match m {
            NodeModel::Group { children, .. } => {
                lemma_index_lookup_props(children, p[0]);
                let j = node_index(children, p[0]);
                let c = children[j].1;
                let c2 = validate_at(c, p.drop_first() + q, v);
                let updated = children.update(j, (p[0], c2));
                lemma_node_lookup_found(updated, p[0], j);
                lemma_validate_factor(c, p.drop_first(), q, v);
            },
            NodeModel::Input { .. } => {
                assert(false);
            },
        }
    }
}

proof fn lemma_disabled_factor(m: NodeModel, p: Seq<SegModel>, q: Seq<SegModel>, d: bool)
    requires
        reg_get(m, p) is Some,
    ensures
        reg_get(set_disabled_at(m, p + q, d), p) == Some(
            set_disabled_at(reg_get(m, p).unwrap(), q, d),
        ),
    decreases p.len(),
{
    if p.len() == 0 {
        assert(p + q =~= q);
    } else {
        assert((p + q)[0] == p[0]);
        assert((p + q).drop_first() =~= p.drop_first() + q);
        match m {
            NodeModel::Group { children, .. } => {
                lemma_index_lookup_props(children, p[0]);
                let j = node_index(children, p[0]);
                let c = children[j].1;
                let c2 = set_disabled_at(c, p.drop_first() + q, d);
                let updated = children.update(j, (p[0], c2));
                lemma_node_lookup_found(updated, p[0], j);
                lemma_disabled_factor(c, p.drop_first(), q, d);
            },
            NodeModel::Input { .. } => {
                assert(false);
            },
        }
    }
}

proof fn lemma_error_factor(m: NodeModel, p: Seq<SegModel>, q: Seq<SegModel>, e: bool)
    requires
        reg_get(m, p) is Some,
    ensures
        reg_get(set_error_at(m, p + q, e), p) == Some(
            set_error_at(reg_get(m, p).unwrap(), q, e),
        ),
    decreases p.len(),
{
    if p.len() == 0 {
        assert(p + q =~= q);
    } else {
        assert((p + q)[0] == p[0]);
        assert((p + q).drop_first() =~= p.drop_first() + q);
        match m {
            NodeModel::Group { children, .. } => {
                lemma_index_lookup_props(children, p[0]);
                let j = node_index(children, p[0]);
                let c = children[j].1;
                let c2 = set_error_at(c, p.drop_first() + q, e);
                let updated = children.update(j, (p[0], c2));
                lemma_node_lookup_found(updated, p[0], j);
                lemma_error_factor(c, p.drop_first(), q, e);
            },
            NodeModel::Input { .. } => {
                assert(false);
            },
        }
    }
}

proof fn lemma_register_factor(
    m: NodeModel,
    p: Seq<SegModel>,
    k: SegModel,
    child: NodeModel,
)
    requires
        reg_get(m, p) is Some,
    ensures
        reg_get(register_at(m, p, k, child), p) == Some(
            register_at(reg_get(m, p).unwrap(), Seq::empty(), k, child),
        ),
    decreases p.len(),
{
    if p.len() == 0 {
        assert(p =~= Seq::<SegModel>::empty() + p);
        assert(Seq::<SegModel>::empty() + Seq::<SegModel>::empty() =~= Seq::<SegModel>::empty());
    } else {
        match m {
            NodeModel::Group { children, .. } => {
                lemma_index_lookup_props(children, p[0]);
                let j = node_index(children, p[0]);
                let c = children[j].1;
                let c2 = register_at(c, p.drop_first(), k, child);
                let updated = children.update(j, (p[0], c2));
                lemma_node_lookup_found(updated, p[0], j);
                lemma_register_factor(c, p.drop_first(), k, child);
            },
            NodeModel::Input { .. } => {
                assert(false);
            },
        }
    }
}

proof fn lemma_any_error_exists(cs: Seq<(SegModel, NodeModel)>)
    ensures
        any_error(cs) == (exists|i: int| 0 <= i < cs.len() && node_error(#[trigger] cs[i].1)),
    decreases cs,
{
    if cs.len() > 0 {
        lemma_any_error_exists(cs.drop_last());
        assert(forall|t: int| 0 <= t < cs.len() - 1 ==> cs.drop_last()[t] == cs[t]);
        if any_error(cs) {
            if any_error(cs.drop_last()) {
                let i = choose|i: int|
                    0 <= i < cs.drop_last().len() && node_error(cs.drop_last()[i].1);
                assert(node_error(cs[i].1));
            } else {
                assert(node_error(cs[cs.len() - 1].1));
            }
        }
        if exists|i: int| 0 <= i < cs.len() && node_error(#[trigger] cs[i].1) {
            let i = choose|i: int| 0 <= i < cs.len() && node_error(#[trigger] cs[i].1);
            if i < cs.len() - 1 {
                assert(node_error(cs.drop_last()[i].1));
            }
            assert(any_error(cs));
        }
    }
}

proof fn lemma_error_witness(n: NodeModel, rest: Seq<SegModel>)
    requires
        reg_get(n, rest) matches Some(NodeModel::Input { error: true, .. }),
    ensures
        node_error(n),
    decreases rest.len(),
{
    if rest.len() == 0 {
    } else {
        match n {
            NodeModel::Group { children, .. } => {
                lemma_index_lookup_props(children, rest[0]);
                let j = node_index(children, rest[0]);
                lemma_error_witness(children[j].1, rest.drop_first());
                lemma_any_error_exists(children);
            },
            NodeModel::Input { .. } => {
                assert(false);
            },
        }
    }
}

proof fn lemma_subtree_distinct(m: NodeModel, p: Seq<SegModel>)
    requires
        reg_distinct(m),
        reg_get(m, p) is Some,
    ensures
        reg_distinct(reg_get(m, p).unwrap()),
    decreases p.len(),
{
    if p.len() > 0 {
        match m {
            NodeModel::Group { children, .. } => {
                lemma_index_lookup_props(children, p[0]);
                let j = node_index(children, p[0]);
                assert(reg_distinct(children[j].1));
                lemma_subtree_distinct(children[j].1, p.drop_first());
            },
            NodeModel::Input { .. } => {
                assert(false);
            },
        }
    }
}

proof fn lemma_lookup_insert(cs: Seq<(SegModel, NodeModel)>, k: SegModel, c: NodeModel)
    requires
        distinct_keys(cs),
    ensures
        node_lookup(insert_child(cs, k, c), k) == Some(c),
{
    lemma_index_lookup_props(cs, k);
    let j0 = node_index(cs, k);
    let removed = remove_child(cs, k);
    if j0 >= 0 {
        assert(forall|t: int| 0 <= t < j0 ==> removed[t] == cs[t]);
        assert(forall|t: int| j0 <= t < removed.len() ==> removed[t] == cs[t + 1]);
        assert forall|t: int| 0 <= t < removed.len() implies removed[t].0 != k by {
            if t < j0 {
                assert(cs[t].0 != k);
            } else {
                assert(cs[j0].0 == k);
                assert(removed[t] == cs[t + 1]);
                assert(cs[j0].0 != cs[t + 1].0);
            }
        }
    } else {
        assert(forall|t: int| 0 <= t < removed.len() ==> removed[t].0 != k);
    }
    let inserted = removed.push((k, c));
    assert(inserted[removed.len() as int] == (k, c));
    assert(forall|t: int| 0 <= t < removed.len() ==> inserted[t] == removed[t]);
    lemma_node_lookup_found(inserted, k, removed.len() as int);
}

/// Error aggregation: a node reports an error exactly when some input at
/// or below it, reachable by a path, currently reports one.
pub proof fn lemma_error_aggregation(m: NodeModel)
    requires
        reg_distinct(m),
    ensures
        node_error(m) == (exists|q: Seq<SegModel>|
            #[trigger] reg_get(m, q) matches Some(NodeModel::Input { error: true, .. })),
    decreases m,
{
    if node_error(m) {
        match m {
            NodeModel::Input { error, .. } => {
                assert(reg_get(m, Seq::<SegModel>::empty()) matches Some(NodeModel::Input {
                    error: true, .. }));
            },
            NodeModel::Group { children, .. } => {
                lemma_any_error_exists(children);
                let i = choose|i: int| 0 <= i < children.len() && node_error(
                    #[trigger] children[i].1,
                );
                assert(reg_distinct(children[i].1));
                lemma_error_aggregation(children[i].1);
                let q1 = choose|q: Seq<SegModel>|
                    #[trigger] reg_get(children[i].1, q) matches Some(NodeModel::Input {
                        error: true, .. });
                let q = seq![children[i].0] + q1;
                assert(forall|t: int| 0 <= t < i ==> children[t].0 != children[i].0);
                lemma_node_lookup_found(children, children[i].0, i);
                assert(q[0] == children[i].0);
                assert(q.drop_first() =~= q1);
                assert(reg_get(m, q) matches Some(NodeModel::Input { error: true, .. }));
            },
        }
    }
    if exists|q: Seq<SegModel>|
        #[trigger] reg_get(m, q) matches Some(NodeModel::Input { error: true, .. }) {
        let q = choose|q: Seq<SegModel>|
            #[trigger] reg_get(m, q) matches Some(NodeModel::Input { error: true, .. });
        lemma_error_witness(m, q);
    }
}

/// Error propagation: flipping the input at `q` to invalid makes every
/// ancestor node on the way to it, the node at any prefix `p` of `q`,
/// report an error at once.
pub proof fn lemma_error_propagation(
    m: NodeModel,
    q: Seq<SegModel>,
    p: Seq<SegModel>,
    rest: Seq<SegModel>,
)
    requires
        reg_get(m, q) matches Some(NodeModel::Input { .. }),
        q == p + rest,
    ensures
        reg_get(set_error_at(m, q, true), p) matches Some(n) && node_error(n),
{
    lemma_reg_get_compose(m, p, rest);
    let n0 = reg_get(m, p).unwrap();
    lemma_error_factor(m, p, rest, true);
    let n = set_error_at(n0, rest, true);
    assert(rest + Seq::<SegModel>::empty() =~= rest);
    lemma_error_factor(n0, rest, Seq::empty(), true);
    assert(reg_get(n, rest) matches Some(NodeModel::Input { error: true, .. }));
    lemma_error_witness(n, rest);
}

/// Disabled propagation: forcing the disabled flag on the subtree at `p`
/// reaches every node still registered below it.
pub proof fn lemma_disabled_propagation(
    m: NodeModel,
    p: Seq<SegModel>,
    d: bool,
    q: Seq<SegModel>,
)
    requires
        reg_get(m, p) is Some,
        reg_get(set_disabled_at(m, p, d), p + q) is Some,
    ensures
        node_disabled(reg_get(set_disabled_at(m, p, d), p + q).unwrap()) == d,
{
    let n0 = reg_get(m, p).unwrap();
    assert(p + Seq::<SegModel>::empty() =~= p);
    lemma_disabled_factor(m, p, Seq::empty(), d);
    lemma_reg_get_compose(set_disabled_at(m, p, d), p, q);
    lemma_get_force(n0, q, d);
}

/// Validation version gating: an input registered with creation stamp `c`
/// reports no validation signal at first; a later sweep with version
/// `v2 > c` over any ancestor group raises its signal.
pub proof fn lemma_validation_version_gating(
    m: NodeModel,
    parent: Seq<SegModel>,
    k: SegModel,
    d: bool,
    c: int,
    anc: Seq<SegModel>,
    rest: Seq<SegModel>,
    v2: int,
)
    requires
        reg_distinct(m),
        reg_get(m, parent) matches Some(NodeModel::Group { .. }),
        parent == anc + rest,
        0 <= c < v2,
    ensures
        ({
            let q = parent.push(k);
            let m2 = register_at(m, parent, k, fresh_input(q, d, c));
            &&& reg_get(m2, q) == Some(fresh_input(q, d, c))
            &&& !signal_spec(fresh_input(q, d, c))
            &&& reg_get(validate_at(m2, anc, v2), q) is Some
            &&& signal_spec(reg_get(validate_at(m2, anc, v2), q).unwrap())
        }),
{
    let q = parent.push(k);
    let fresh = fresh_input(q, d, c);
    let m2 = register_at(m, parent, k, fresh);
    let n0 = reg_get(m, parent).unwrap();
    lemma_register_factor(m, parent, k, fresh);
    lemma_subtree_distinct(m, parent);
    let n1 = register_at(n0, Seq::empty(), k, fresh);
    assert(reg_get(m2, parent) == Some(n1));
    assert(seq![k][0] == k);
    assert(seq![k].drop_first() =~= Seq::<SegModel>::empty());
    match n0 {
        NodeModel::Group { qs: gq, label: gl, disabled: gd, children } => {
            assert(distinct_keys(children));
            lemma_lookup_insert(children, k, fresh);
            assert(n1 == NodeModel::Group {
                qs: gq,
                label: gl,
                disabled: gd,
                children: insert_child(children, k, fresh),
            });
            assert(node_lookup(insert_child(children, k, fresh), k) == Some(fresh));
            assert(reg_get(fresh, Seq::<SegModel>::empty()) == Some(fresh));
            assert(reg_get(n1, seq![k]) == Some(fresh));
        },
        NodeModel::Input { .. } => {
            assert(false);
        },
    }
    assert(q =~= parent + seq![k]);
    lemma_reg_get_compose(m2, parent, seq![k]);
    assert(reg_get(m2, q) == Some(fresh));
    // the freshly created input shows no signal
    assert(!signal_spec(fresh));
    // a later sweep over the ancestor stamps it
    lemma_reg_get_compose(m2, anc, rest.push(k));
    assert(anc + rest.push(k) =~= q);
    assert(reg_get(m2, anc) is Some);
    let na = reg_get(m2, anc).unwrap();
    assert(anc + Seq::<SegModel>::empty() =~= anc);
    lemma_validate_factor(m2, anc, Seq::empty(), v2);
    lemma_reg_get_compose(validate_at(m2, anc, v2), anc, rest.push(k));
    lemma_get_stamp(na, rest.push(k), v2);
    assert(reg_get(na, rest.push(k)) == Some(fresh));
    assert(reg_get(validate_at(m2, anc, v2), q) == Some(stamp(fresh, v2)));
}

proof fn lemma_remove_child_distinct(cs: Seq<(SegModel, NodeModel)>, k: SegModel)
    requires
        distinct_keys(cs),
    ensures
        distinct_keys(remove_child(cs, k)),
        forall|t: int|
            0 <= t < remove_child(cs, k).len() ==> #[trigger] remove_child(cs, k)[t].0 != k,
        forall|t: int|
            0 <= t < remove_child(cs, k).len() ==> exists|u: int|
                0 <= u < cs.len() && cs[u] == #[trigger] remove_child(cs, k)[t],
{
    lemma_index_lookup_props(cs, k);
    let j0 = node_index(cs, k);
    let removed = remove_child(cs, k);
    if j0 >= 0 {
        assert(forall|t: int| 0 <= t < j0 ==> removed[t] == cs[t]);
        assert(forall|t: int| j0 <= t < removed.len() ==> removed[t] == cs[t + 1]);
        assert forall|t: int| 0 <= t < removed.len() implies #[trigger] removed[t].0 != k by {
            if t < j0 {
                assert(cs[t].0 != k);
            } else {
                assert(removed[t] == cs[t + 1]);
                assert(cs[j0].0 != cs[t + 1].0);
            }
        }
        assert forall|i: int, j: int|
            0 <= i < j < removed.len() implies removed[i].0 != removed[j].0 by {
            let oi = if i < j0 { i } else { i + 1 };
            let oj = if j < j0 { j } else { j + 1 };
            assert(removed[i] == cs[oi]);
            assert(removed[j] == cs[oj]);
            assert(cs[oi].0 != cs[oj].0);
        }
        assert forall|t: int| 0 <= t < removed.len() implies exists|u: int|
            0 <= u < cs.len() && cs[u] == #[trigger] removed[t] by {
            let u = if t < j0 { t } else { t + 1 };
            assert(cs[u] == removed[t]);
        }
    } else {
        assert(removed =~= cs);
        assert forall|t: int| 0 <= t < removed.len() implies exists|u: int|
            0 <= u < cs.len() && cs[u] == #[trigger] removed[t] by {
            assert(cs[t] == removed[t]);
        }
    }
}

/// Registration keeps keys unique: replacing or appending a child under
/// one key leaves every group keying each child at most once.
pub proof fn lemma_register_keeps_distinct(
    m: NodeModel,
    p: Seq<SegModel>,
    k: SegModel,
    c: NodeModel,
)
    requires
        reg_distinct(m),
        reg_distinct(c),
    ensures
        reg_distinct(register_at(m, p, k, c)),
    decreases p.len(),
{
    match m {
        NodeModel::Input { .. } => {},
        NodeModel::Group { children, .. } => {
            if p.len() == 0 {
                lemma_remove_child_distinct(children, k);
                let removed = remove_child(children, k);
                let inserted = removed.push((k, c));
                assert forall|i: int, j: int|
                    0 <= i < j < inserted.len() implies inserted[i].0 != inserted[j].0 by {
                    if j < removed.len() {
                        assert(inserted[i] == removed[i]);
                        assert(inserted[j] == removed[j]);
                    } else {
                        assert(inserted[i] == removed[i]);
                        assert(removed[i].0 != k);
                    }
                }
                assert forall|i: int|
                    0 <= i < inserted.len() implies reg_distinct(#[trigger] inserted[i].1) by {
                    if i < removed.len() {
                        let u = choose|u: int| 0 <= u < children.len() && children[u]
                            == removed[i];
                        assert(reg_distinct(children[u].1));
                    }
                }
            } else {
                lemma_index_lookup_props(children, p[0]);
                let j = node_index(children, p[0]);
                if j >= 0 {
                    assert(reg_distinct(children[j].1));
                    lemma_register_keeps_distinct(children[j].1, p.drop_first(), k, c);
                    let updated = children.update(
                        j,
                        (p[0], register_at(children[j].1, p.drop_first(), k, c)),
                    );
                    assert(forall|t: int|
                        0 <= t < updated.len() ==> #[trigger] updated[t].0 == children[t].0);
                    assert forall|i: int|
                        0 <= i < updated.len() implies reg_distinct(#[trigger] updated[i].1) by {
                        if i != j {
                            assert(updated[i].1 == children[i].1);
                            assert(reg_distinct(children[i].1));
                        }
                    }
                }
            }
        },
    }
}

/// Deregistration keeps keys unique.
pub proof fn lemma_deregister_keeps_distinct(m: NodeModel, p: Seq<SegModel>, k: SegModel)
    requires
        reg_distinct(m),
    ensures
        reg_distinct(deregister_at(m, p, k)),
    decreases p.len(),
{
    match m {
        NodeModel::Input { .. } => {},
        NodeModel::Group { children, .. } => {
            if p.len() == 0 {
                lemma_remove_child_distinct(children, k);
                let removed = remove_child(children, k);
                assert forall|i: int|
                    0 <= i < removed.len() implies reg_distinct(#[trigger] removed[i].1) by {
                    let u = choose|u: int| 0 <= u < children.len() && children[u] == removed[i];
                    assert(reg_distinct(children[u].1));
                }
            } else {
                lemma_index_lookup_props(children, p[0]);
                let j = node_index(children, p[0]);
                if j >= 0 {
                    assert(reg_distinct(children[j].1));
                    lemma_deregister_keeps_distinct(children[j].1, p.drop_first(), k);
                    let updated = children.update(
                        j,
                        (p[0], deregister_at(children[j].1, p.drop_first(), k)),
                    );
                    assert(forall|t: int|
                        0 <= t < updated.len() ==> #[trigger] updated[t].0 == children[t].0);
                    assert forall|i: int|
                        0 <= i < updated.len() implies reg_distinct(#[trigger] updated[i].1) by {
                        if i != j {
                            assert(updated[i].1 == children[i].1);
                            assert(reg_distinct(children[i].1));
                        }
                    }
                }
            }
        },
    }
}

proof fn lemma_stamp_keeps_distinct(m: NodeModel, v: int)
    requires
        reg_distinct(m),
    ensures
        reg_distinct(stamp(m, v)),
    decreases m,
{
    match m {
        NodeModel::Input { .. } => {},
        NodeModel::Group { children, .. } => {
            lemma_stamp_children(children, v);
            let stamped = stamp_children(children, v);
            assert(forall|t: int|
                0 <= t < stamped.len() ==> #[trigger] stamped[t].0 == children[t].0);
            assert forall|i: int|
                0 <= i < stamped.len() implies reg_distinct(#[trigger] stamped[i].1) by {
                assert(reg_distinct(children[i].1));
                lemma_stamp_keeps_distinct(children[i].1, v);
            }
        },
    }
}

/// A validation sweep keeps keys unique.
pub proof fn lemma_validate_keeps_distinct(m: NodeModel, p: Seq<SegModel>, v: int)
    requires
        reg_distinct(m),
    ensures
        reg_distinct(validate_at(m, p, v)),
    decreases p.len(),
{
    if p.len() == 0 {
        lemma_stamp_keeps_distinct(m, v);
    } else {
        match m {
            NodeModel::Input { .. } => {},
            NodeModel::Group { children, .. } => {
                lemma_index_lookup_props(children, p[0]);
                let j = node_index(children, p[0]);
                if j >= 0 {
                    assert(reg_distinct(children[j].1));
                    lemma_validate_keeps_distinct(children[j].1, p.drop_first(), v);
                    let updated = children.update(
                        j,
                        (p[0], validate_at(children[j].1, p.drop_first(), v)),
                    );
                    assert(forall|t: int|
                        0 <= t < updated.len() ==> #[trigger] updated[t].0 == children[t].0);
                    assert forall|i: int|
                        0 <= i < updated.len() implies reg_distinct(#[trigger] updated[i].1) by {
                        if i != j {
                            assert(updated[i].1 == children[i].1);
                            assert(reg_distinct(children[i].1));
                        }
                    }
                }
            },
        }
    }
}

} // verus!
