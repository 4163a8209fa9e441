//! DOM trees, CSS, and the styled DOM: a DOM flattened into arrays in
//! document order, with the CSS declarations that apply to each node.
use vstd::prelude::*;

verus! {

/// The kind of a DOM node.
#[derive(Debug, PartialEq, Eq)]
pub enum NodeType {
    Body,
    Div,
    Br,
    Text(String),
}

/// The kind of a DOM node without its content, as CSS type selectors name it.
#[derive(Clone, Copy, Debug, PartialEq, Eq, Structural)]
pub enum NodeTypeTag {
    Body,
    Div,
    Br,
    Text,
}

/// An `id` or a `class` attribute of a DOM node.
#[derive(Debug, PartialEq, Eq)]
pub enum IdOrClass {
    Id(String),
    Class(String),
}

/// A CSS declaration: a property and its value, such as `padding` and
/// `50px`.
#[derive(Debug, PartialEq, Eq)]
pub struct CssDeclaration {
    pub key: String,
    pub value: String,
}

impl Clone for CssDeclaration {
    fn clone(&self) -> (res: Self)
        ensures
            res == *self,
    {
        CssDeclaration { key: self.key.clone(), value: self.value.clone() }
    }
}

impl Clone for NodeType {
    fn clone(&self) -> (res: Self)
        ensures
            res == *self,
    {
        match self {
            NodeType::Body => NodeType::Body,
            NodeType::Div => NodeType::Div,
            NodeType::Br => NodeType::Br,
            NodeType::Text(t) => NodeType::Text(t.clone()),
        }
    }
}

impl Clone for IdOrClass {
    fn clone(&self) -> (res: Self)
        ensures
            res == *self,
    {
        match self {
            IdOrClass::Id(c) => IdOrClass::Id(c.clone()),
            IdOrClass::Class(c) => IdOrClass::Class(c.clone()),
        }
    }
}

/// A copy of the ids and classes of a node.
fn clone_ids_and_classes(v: &Vec<IdOrClass>) -> (res: Vec<IdOrClass>)
    ensures
        res@ == v@,
{
    let mut out: Vec<IdOrClass> = Vec::new();
    let n = v.len();
    let mut i: usize = 0;
    while i < n
        invariant
            n == v@.len(),
            0 <= i <= n,
            out@ == v@.take(i as int),
        decreases n - i,
    {
        out.push(v[i].clone());
        proof {
            assert(v@.take(i + 1) =~= v@.take(i as int).push(v@[i as int]));
        }
        i = i + 1;
    }
    proof {
        assert(v@.take(n as int) =~= v@);
    }
    out
}

/// Two nodes have the same content: the same type, the same ids and
/// classes, and the same inline declarations, in the same order.
pub open spec fn same_node_data(a: NodeData, b: NodeData) -> bool {
    &&& a.node_type == b.node_type
    &&& a.ids_and_classes@ == b.ids_and_classes@
    &&& a.inline_css_props@ == b.inline_css_props@
}

impl Clone for NodeData {
    fn clone(&self) -> (res: Self)
        ensures
            same_node_data(res, *self),
    {
        let mut inline_css_props: Vec<CssDeclaration> = Vec::new();
        extend_declarations(&mut inline_css_props, &self.inline_css_props);
        proof {
            assert(Seq::<CssDeclaration>::empty() + self.inline_css_props@ =~= self.inline_css_props@);
        }
        NodeData {
            node_type: self.node_type.clone(),
            ids_and_classes: clone_ids_and_classes(&self.ids_and_classes),
            inline_css_props,
        }
    }
}

/// The content of one DOM node.
#[derive(Debug, PartialEq, Eq)]
pub struct NodeData {
    pub node_type: NodeType,
    pub ids_and_classes: Vec<IdOrClass>,
    pub inline_css_props: Vec<CssDeclaration>,
}

/// A DOM tree: a node and its children, in order.
#[derive(Debug, PartialEq, Eq)]
pub struct Dom {
    pub root: NodeData,
    pub children: Vec<Dom>,
}

/// One simple selector of a CSS rule.
#[derive(Debug, PartialEq, Eq)]
pub enum CssPathSelector {
    /// `*`: every node.
    Global,
    /// A node type, such as `div`.
    Type(NodeTypeTag),
    /// `.name`: a node with that class.
    Class(String),
    /// `#name`: a node with that id.
    Id(String),
}

/// A CSS rule: the node matches when it matches every selector of `path`;
/// the declarations then apply to it.
#[derive(Debug, PartialEq, Eq)]
pub struct CssRuleBlock {
    pub path: Vec<CssPathSelector>,
    pub declarations: Vec<CssDeclaration>,
}

/// A style sheet: its rules, in source order.
#[derive(Debug, PartialEq, Eq)]
pub struct Css {
    pub rules: Vec<CssRuleBlock>,
}

/// The type selector that names a node of type `t`.
pub open spec fn spec_node_type_tag(t: NodeType) -> NodeTypeTag {
    match t {
        NodeType::Body => NodeTypeTag::Body,
        NodeType::Div => NodeTypeTag::Div,
        NodeType::Br => NodeTypeTag::Br,
        NodeType::Text(_) => NodeTypeTag::Text,
    }
}

/// The node has the class `name`.
pub open spec fn has_class(nd: NodeData, name: Seq<char>) -> bool {
    exists|i: int|
        0 <= i < nd.ids_and_classes@.len() && (#[trigger] nd.ids_and_classes@[i] matches IdOrClass::Class(c)
            && c@ == name)
}

/// The node has the id `name`.
pub open spec fn has_id(nd: NodeData, name: Seq<char>) -> bool {
    exists|i: int|
        0 <= i < nd.ids_and_classes@.len() && (#[trigger] nd.ids_and_classes@[i] matches IdOrClass::Id(c)
            && c@ == name)
}

/// The node matches one simple selector.
pub open spec fn selector_matches(sel: CssPathSelector, nd: NodeData) -> bool {
    match sel {
        CssPathSelector::Global => true,
        CssPathSelector::Type(t) => spec_node_type_tag(nd.node_type) == t,
        CssPathSelector::Class(c) => has_class(nd, c@),
        CssPathSelector::Id(c) => has_id(nd, c@),
    }
}

/// The node matches every selector of the rule.
pub open spec fn rule_matches(rule: CssRuleBlock, nd: NodeData) -> bool {
    forall|k: int| 0 <= k < rule.path@.len() ==> selector_matches(#[trigger] rule.path@[k], nd)
}

/// The declarations of the rules that match the node, rule after rule in
/// source order.
pub open spec fn matched_declarations(rules: Seq<CssRuleBlock>, nd: NodeData) -> Seq<CssDeclaration>
    decreases rules.len(),
{
    if rules.len() == 0 {
        Seq::empty()
    } else {
        matched_declarations(rules.drop_last(), nd) + if rule_matches(rules.last(), nd) {
            rules.last().declarations@
        } else {
            Seq::empty()
        }
    }
}

/// The declarations that apply to a node, in cascade order (a later one
/// overrides an earlier one for the same property): those of the matching
/// rules, then the node's inline declarations.
pub open spec fn cascaded_declarations(css: Css, nd: NodeData) -> Seq<CssDeclaration> {
    matched_declarations(css.rules@, nd) + nd.inline_css_props@
}

/// Law: a class selector matches a node exactly when the node has that
/// class, at any position among its ids and classes.
pub proof fn law_class_selector_matches_any_position(nd: NodeData, name: String)
    ensures
        selector_matches(CssPathSelector::Class(name), nd) <==> exists|i: int|
            0 <= i < nd.ids_and_classes@.len() && (#[trigger] nd.ids_and_classes@[i] matches IdOrClass::Class(c)
                && c@ == name@),
        forall|i: int|
            0 <= i < nd.ids_and_classes@.len() && (#[trigger] nd.ids_and_classes@[i] matches IdOrClass::Class(c)
                && c@ == name@) ==> selector_matches(CssPathSelector::Class(name), nd),
{
}

/// Law: an id selector matches a node exactly when the node has that id,
/// at any position among its ids and classes.
pub proof fn law_id_selector_matches_any_position(nd: NodeData, name: String)
    ensures
        selector_matches(CssPathSelector::Id(name), nd) <==> exists|i: int|
            0 <= i < nd.ids_and_classes@.len() && (#[trigger] nd.ids_and_classes@[i] matches IdOrClass::Id(c)
                && c@ == name@),
        forall|i: int|
            0 <= i < nd.ids_and_classes@.len() && (#[trigger] nd.ids_and_classes@[i] matches IdOrClass::Id(c)
                && c@ == name@) ==> selector_matches(CssPathSelector::Id(name), nd),
{
}

/// Law: a type selector matches a node exactly when it names the node's
/// type: `body` a body, `div` a div, `br` a line break, and the text
/// selector any text node.
pub proof fn law_type_selector_names_node_type(nd: NodeData, t: NodeTypeTag)
    ensures
        selector_matches(CssPathSelector::Type(t), nd) <==> (
            (nd.node_type is Body && t == NodeTypeTag::Body)
            || (nd.node_type is Div && t == NodeTypeTag::Div)
            || (nd.node_type is Br && t == NodeTypeTag::Br)
            || (nd.node_type is Text && t == NodeTypeTag::Text)),
{
}

/// The type selector that names a node of type `t`.
pub fn node_type_tag(t: &NodeType) -> (res: NodeTypeTag)
    ensures
        res == spec_node_type_tag(*t),
{
    match t {
        NodeType::Body => NodeTypeTag::Body,
        NodeType::Div => NodeTypeTag::Div,
        NodeType::Br => NodeTypeTag::Br,
        NodeType::Text(_) => NodeTypeTag::Text,
    }
}

/// Whether the node has the class `name`.
pub fn node_has_class(nd: &NodeData, name: &String) -> (res: bool)
    ensures
        res == has_class(*nd, name@),
{
    let n = nd.ids_and_classes.len();
    let mut i: usize = 0;
    while i < n
        invariant
            n == nd.ids_and_classes@.len(),
            0 <= i <= n,
            forall|j: int| 0 <= j < i ==> !(#[trigger] nd.ids_and_classes@[j] matches IdOrClass::Class(c)
                && c@ == name@),
        decreases n - i,
    {
        match &nd.ids_and_classes[i] {
            IdOrClass::Class(c) => {
                let same = c.eq(name);
                if same {
                    assert(nd.ids_and_classes@[i as int] matches IdOrClass::Class(c) && c@ == name@);
                    return true;
                }
            },
            IdOrClass::Id(_) => {},
        }
        i = i + 1;
    }
    false
}

/// Whether the node has the id `name`.
pub fn node_has_id(nd: &NodeData, name: &String) -> (res: bool)
    ensures
        res == has_id(*nd, name@),
{
    let n = nd.ids_and_classes.len();
    let mut i: usize = 0;
    while i < n
        invariant
            n == nd.ids_and_classes@.len(),
            0 <= i <= n,
            forall|j: int| 0 <= j < i ==> !(#[trigger] nd.ids_and_classes@[j] matches IdOrClass::Id(c)
                && c@ == name@),
        decreases n - i,
    {
        match &nd.ids_and_classes[i] {
            IdOrClass::Id(c) => {
                let same = c.eq(name);
                if same {
                    assert(nd.ids_and_classes@[i as int] matches IdOrClass::Id(c) && c@ == name@);
                    return true;
                }
            },
            IdOrClass::Class(_) => {},
        }
        i = i + 1;
    }
    false
}

/// Whether the node matches one simple selector.
pub fn matches_selector(sel: &CssPathSelector, nd: &NodeData) -> (res: bool)
    ensures
        res == selector_matches(*sel, *nd),
{
    match sel {
        CssPathSelector::Global => true,
        CssPathSelector::Type(t) => node_type_tag(&nd.node_type) == *t,
        CssPathSelector::Class(name) => node_has_class(nd, name),
        CssPathSelector::Id(name) => node_has_id(nd, name),
    }
}

/// Whether the node matches every selector of the rule.
pub fn matches_rule(rule: &CssRuleBlock, nd: &NodeData) -> (res: bool)
    ensures
        res == rule_matches(*rule, *nd),
{
    let n = rule.path.len();
    let mut k: usize = 0;
    while k < n
        invariant
            n == rule.path@.len(),
            0 <= k <= n,
            forall|j: int| 0 <= j < k ==> selector_matches(#[trigger] rule.path@[j], *nd),
        decreases n - k,
    {
        if !matches_selector(&rule.path[k], nd) {
            return false;
        }
        k = k + 1;
    }
    true
}

/// Appends copies of `decls` to `out`.
fn extend_declarations(out: &mut Vec<CssDeclaration>, decls: &Vec<CssDeclaration>)
    ensures
        final(out)@ == old(out)@ + decls@,
{
    let n = decls.len();
    let mut i: usize = 0;
    while i < n
        invariant
            n == decls@.len(),
            0 <= i <= n,
            out@ == old(out)@ + decls@.take(i as int),
        decreases n - i,
    {
        out.push(decls[i].clone());
        proof {
            assert(decls@.take(i + 1) =~= decls@.take(i as int).push(decls@[i as int]));
        }
        i = i + 1;
    }
    proof {
        assert(decls@.take(n as int) =~= decls@);
    }
}

/// The declarations that apply to a node under a style sheet, in cascade
/// order.
pub fn cascade(css: &Css, nd: &NodeData) -> (res: Vec<CssDeclaration>)
    ensures
        res@ == cascaded_declarations(*css, *nd),
{
    let mut out: Vec<CssDeclaration> = Vec::new();
    let n = css.rules.len();
    let mut i: usize = 0;
    while i < n
        invariant
            n == css.rules@.len(),
            0 <= i <= n,
            out@ == matched_declarations(css.rules@.take(i as int), *nd),
        decreases n - i,
    {
        proof {
            assert(css.rules@.take(i + 1).drop_last() =~= css.rules@.take(i as int));
        }
        if matches_rule(&css.rules[i], nd) {
            extend_declarations(&mut out, &css.rules[i].declarations);
        } else {
            proof {
                assert(out@ + Seq::<CssDeclaration>::empty() =~= out@);
            }
        }
        i = i + 1;
    }
    proof {
        assert(css.rules@.take(n as int) =~= css.rules@);
    }
    extend_declarations(&mut out, &nd.inline_css_props);
    out
}


/// The links of one node of a flattened DOM to its neighbours, as indices
/// into the node arrays.
#[derive(Clone, Copy, Debug, PartialEq, Eq)]
pub struct Node {
    pub parent: Option<usize>,
    pub previous_sibling: Option<usize>,
    pub next_sibling: Option<usize>,
    pub last_child: Option<usize>,
}

/// Where a node stands among its siblings.
#[derive(Clone, Copy, Debug, PartialEq, Eq)]
pub struct CascadeInfo {
    pub index_in_parent: usize,
    pub is_last_child: bool,
}

/// The interaction state of a node, which pseudo-class rules depend on.
#[derive(Clone, Copy, Debug, PartialEq, Eq)]
pub struct StyledNodeState {
    pub normal: bool,
    pub hover: bool,
    pub active: bool,
    pub focused: bool,
}

/// A node with the declarations that the cascade gave it.
#[derive(Debug, PartialEq, Eq)]
pub struct StyledNode {
    pub state: StyledNodeState,
    pub css_properties: Vec<CssDeclaration>,
}

/// Two styled nodes have the same state and the same declarations, in the
/// same order.
pub open spec fn same_styled_node(a: StyledNode, b: StyledNode) -> bool {
    &&& a.state == b.state
    &&& a.css_properties@ == b.css_properties@
}

impl Clone for StyledNode {
    fn clone(&self) -> (res: Self)
        ensures
            same_styled_node(res, *self),
    {
        let mut css_properties: Vec<CssDeclaration> = Vec::new();
        extend_declarations(&mut css_properties, &self.css_properties);
        proof {
            assert(Seq::<CssDeclaration>::empty() + self.css_properties@ =~= self.css_properties@);
        }
        StyledNode { state: self.state, css_properties }
    }
}

/// The state of a node that nobody interacts with.
pub open spec fn normal_state() -> StyledNodeState {
    StyledNodeState { normal: true, hover: false, active: false, focused: false }
}

/// The number of nodes of a DOM tree.
pub open spec fn dom_size(d: Dom) -> nat
    decreases d,
{
    1 + forest_size(d.children@)
}

/// The number of nodes of a sequence of DOM trees.
pub open spec fn forest_size(f: Seq<Dom>) -> nat
    decreases f,
{
    if f.len() == 0 {
        0
    } else {
        forest_size(f.drop_last()) + dom_size(f.last())
    }
}

/// The nodes of a DOM tree in document order: a node, then the nodes of
/// each child in turn.
pub open spec fn preorder(d: Dom) -> Seq<NodeData>
    decreases d,
{
    seq![d.root] + forest_preorder(d.children@)
}

/// The nodes of a sequence of DOM trees in document order.
pub open spec fn forest_preorder(f: Seq<Dom>) -> Seq<NodeData>
    decreases f,
{
    if f.len() == 0 {
        Seq::empty()
    } else {
        forest_preorder(f.drop_last()) + preorder(f.last())
    }
}

/// The links of the nodes of tree `d` once it is laid out in document order
/// from index `base`: its root has the given parent and previous sibling,
/// a next sibling right after the tree unless it is the last child, and as
/// last child the root of its last child tree.
pub open spec fn tree_nodes(d: Dom, base: int, parent: Option<usize>, prev: Option<usize>, is_last: bool) -> Seq<Node>
    decreases d,
{
    let n = d.children@.len();
    seq![Node {
        parent,
        previous_sibling: prev,
        next_sibling: if is_last { None } else { Some((base + dom_size(d)) as usize) },
        last_child: if n == 0 { None } else { Some((base + 1 + forest_size(d.children@.drop_last())) as usize) },
    }] + forest_nodes(d.children@, n as int, base + 1, base as usize)
}

/// The links of the nodes of the first `f.len()` of `count` sibling trees
/// laid out from index `start`, whose parent is at `parent`.
pub open spec fn forest_nodes(f: Seq<Dom>, count: int, start: int, parent: usize) -> Seq<Node>
    decreases f,
{
    if f.len() == 0 {
        Seq::empty()
    } else {
        let i = f.len() - 1;
        let prev = if i == 0 {
            None
        } else {
            Some((start + forest_size(f.drop_last().drop_last())) as usize)
        };
        forest_nodes(f.drop_last(), count, start, parent) + tree_nodes(
            f.last(),
            start + forest_size(f.drop_last()),
            Some(parent),
            prev,
            i == count - 1,
        )
    }
}

/// Where each node of tree `d` stands among its siblings, in document
/// order, when the tree is child number `index_in_parent` of its parent.
pub open spec fn tree_cascade(d: Dom, index_in_parent: int, is_last: bool) -> Seq<CascadeInfo>
    decreases d,
{
    seq![CascadeInfo { index_in_parent: index_in_parent as usize, is_last_child: is_last }] + forest_cascade(
        d.children@,
        d.children@.len() as int,
    )
}

/// Where each node of the first `f.len()` of `count` sibling trees stands.
pub open spec fn forest_cascade(f: Seq<Dom>, count: int) -> Seq<CascadeInfo>
    decreases f,
{
    if f.len() == 0 {
        Seq::empty()
    } else {
        let i = f.len() - 1;
        forest_cascade(f.drop_last(), count) + tree_cascade(f.last(), i, i == count - 1)
    }
}


proof fn lemma_tree_len(d: Dom, base: int, parent: Option<usize>, prev: Option<usize>, index_in_parent: int, is_last: bool)
    ensures
        tree_nodes(d, base, parent, prev, is_last).len() == dom_size(d),
        preorder(d).len() == dom_size(d),
        tree_cascade(d, index_in_parent, is_last).len() == dom_size(d),
    decreases d, 1int,
{
    lemma_forest_len(d.children@, d.children@.len() as int, base + 1, base as usize);
}

proof fn lemma_forest_len(f: Seq<Dom>, count: int, start: int, parent: usize)
    ensures
        forest_nodes(f, count, start, parent).len() == forest_size(f),
        forest_preorder(f).len() == forest_size(f),
        forest_cascade(f, count).len() == forest_size(f),
    decreases f, 0int,
{
    if f.len() > 0 {
        let i = f.len() - 1;
        lemma_forest_len(f.drop_last(), count, start, parent);
        let prev = if i == 0 {
            None
        } else {
            Some((start + forest_size(f.drop_last().drop_last())) as usize)
        };
        lemma_tree_len(f.last(), start + forest_size(f.drop_last()), Some(parent), prev, i, i == count - 1);
    }
}

/// The links of the nodes of a laid-out tree stay inside the tree, and
/// every node but its root has an earlier parent.
#[verifier::spinoff_prover]
proof fn lemma_tree_links(d: Dom, base: int, parent: Option<usize>, prev: Option<usize>, is_last: bool)
    requires
        0 <= base,
        base + dom_size(d) <= usize::MAX,
    ensures
        ({
            let t = tree_nodes(d, base, parent, prev, is_last);
            let end = base + dom_size(d);
            &&& t.len() == dom_size(d)
            &&& t[0].parent == parent
            &&& t[0].previous_sibling == prev
            &&& t[0].next_sibling == if is_last { None } else { Some(end as usize) }
            &&& forall|j: int| 0 <= j < t.len() ==> (#[trigger] t[j].last_child matches Some(c) ==> base + j < c < end)
            &&& forall|j: int| 1 <= j < t.len() ==> (#[trigger] t[j].parent matches Some(p) && base <= p < base + j)
            &&& forall|j: int| 1 <= j < t.len() ==> (#[trigger] t[j].previous_sibling matches Some(x) ==> base < x < base + j)
            &&& forall|j: int| 1 <= j < t.len() ==> (#[trigger] t[j].next_sibling matches Some(x) ==> base + j < x < end)
        }),
    decreases d, 1int,
{
    let cs = d.children@;
    let n = cs.len();
    let t = tree_nodes(d, base, parent, prev, is_last);
    let f = forest_nodes(cs, n as int, base + 1, base as usize);
    lemma_forest_links(cs, n as int, base + 1, base as usize);
    assert(t == seq![t[0]] + f);
    if n > 0 {
        assert(forest_size(cs) == forest_size(cs.drop_last()) + dom_size(cs.last()));
    }
    assert forall|j: int| 1 <= j < t.len() implies (#[trigger] t[j].parent matches Some(p) && base <= p < base + j) by {
        assert(t[j] == f[j - 1]);
    }
    assert forall|j: int| 1 <= j < t.len() implies (#[trigger] t[j].previous_sibling matches Some(x) ==> base < x < base + j) by {
        assert(t[j] == f[j - 1]);
    }
    assert forall|j: int| 1 <= j < t.len() implies (#[trigger] t[j].next_sibling matches Some(x) ==> base + j < x < base + dom_size(d)) by {
        assert(t[j] == f[j - 1]);
    }
    assert forall|j: int| 0 <= j < t.len() implies (#[trigger] t[j].last_child matches Some(c) ==> base + j < c < base + dom_size(d)) by {
        if j > 0 {
            assert(t[j] == f[j - 1]);
        }
    }
}

/// The links of the nodes of laid-out sibling trees stay inside them, but
/// for the next sibling of the last one when more siblings follow.
#[verifier::spinoff_prover]
proof fn lemma_forest_links(f: Seq<Dom>, count: int, start: int, parent: usize)
    requires
        1 <= start,
        parent == start - 1,
        f.len() <= count,
        start + forest_size(f) <= usize::MAX,
    ensures
        ({
            let t = forest_nodes(f, count, start, parent);
            let end = start + forest_size(f);
            &&& t.len() == forest_size(f)
            &&& forall|j: int| 0 <= j < t.len() ==> (#[trigger] t[j].parent matches Some(p) && parent <= p < start + j)
            &&& forall|j: int| 0 <= j < t.len() ==> (#[trigger] t[j].previous_sibling matches Some(x) ==> start <= x < start + j)
            &&& forall|j: int| 0 <= j < t.len() ==> (#[trigger] t[j].last_child matches Some(c) ==> start + j < c < end)
            &&& forall|j: int| 0 <= j < t.len() ==> (#[trigger] t[j].next_sibling matches Some(x) ==> start + j < x <= end
                && (f.len() == count ==> x < end))
            &&& f.len() > 0 ==> t[forest_size(f.drop_last()) as int].parent == Some(parent)
            &&& f.len() > 0 ==> t[forest_size(f.drop_last()) as int].next_sibling == if f.len() == count {
                None
            } else {
                Some(end as usize)
            }
            &&& forall|j: int| 0 <= j < t.len() && #[trigger] t[j].next_sibling == Some(end as usize) ==> j
                == forest_size(f.drop_last())
        }),
    decreases f, 0int,
{
    lemma_forest_len(f, count, start, parent);
    if f.len() > 0 {
        let i = f.len() - 1;
        let g = f.drop_last();
        let mid = start + forest_size(g);
        let prev = if i == 0 {
            None
        } else {
            Some((start + forest_size(g.drop_last())) as usize)
        };
        if i > 0 {
            assert(forest_size(g) == forest_size(g.drop_last()) + dom_size(g.last()));
        }
        lemma_forest_links(g, count, start, parent);
        lemma_tree_links(f.last(), mid, Some(parent), prev, i == count - 1);
        let a = forest_nodes(g, count, start, parent);
        let b = tree_nodes(f.last(), mid, Some(parent), prev, i == count - 1);
        let t = forest_nodes(f, count, start, parent);
        assert(t == a + b);
        let end = start + forest_size(f);
        assert forall|j: int| 0 <= j < t.len() implies (#[trigger] t[j].parent matches Some(p) && parent <= p < start + j) by {
            if j >= a.len() {
                assert(t[j] == b[j - a.len()]);
            } else {
                assert(t[j] == a[j]);
            }
        }
        assert forall|j: int| 0 <= j < t.len() implies (#[trigger] t[j].previous_sibling matches Some(x) ==> start <= x < start + j) by {
            if j >= a.len() {
                assert(t[j] == b[j - a.len()]);
            } else {
                assert(t[j] == a[j]);
            }
        }
        assert forall|j: int| 0 <= j < t.len() implies (#[trigger] t[j].last_child matches Some(c) ==> start + j < c < end) by {
            if j >= a.len() {
                assert(t[j] == b[j - a.len()]);
            } else {
                assert(t[j] == a[j]);
            }
        }
        assert forall|j: int| 0 <= j < t.len() implies (#[trigger] t[j].next_sibling matches Some(x) ==> start + j < x <= end
            && (f.len() == count ==> x < end)) by {
            if j >= a.len() {
                assert(t[j] == b[j - a.len()]);
            } else {
                assert(t[j] == a[j]);
            }
        }
        assert(t[a.len() as int] == b[0]);
        assert forall|j: int| 0 <= j < t.len() && #[trigger] t[j].next_sibling == Some(end as usize) implies j
            == forest_size(f.drop_last()) by {
            if j >= a.len() {
                assert(t[j] == b[j - a.len()]);
            } else {
                assert(t[j] == a[j]);
            }
        }
    }
}

/// The parent, previous sibling and place among the siblings of a tree's
/// root only change the root's own entries.
proof fn lemma_tree_root_only(
    d: Dom,
    base: int,
    p1: Option<usize>,
    q1: Option<usize>,
    b1: bool,
    p2: Option<usize>,
    q2: Option<usize>,
    b2: bool,
    i1: int,
    i2: int,
)
    ensures
        tree_nodes(d, base, p1, q1, b1).len() == tree_nodes(d, base, p2, q2, b2).len(),
        tree_nodes(d, base, p1, q1, b1)[0].last_child == tree_nodes(d, base, p2, q2, b2)[0].last_child,
        forall|j: int| 1 <= j < tree_nodes(d, base, p1, q1, b1).len() ==> #[trigger] tree_nodes(d, base, p1, q1, b1)[j]
            == tree_nodes(d, base, p2, q2, b2)[j],
        tree_cascade(d, i1, b1).len() == tree_cascade(d, i2, b2).len(),
        forall|j: int| 1 <= j < tree_cascade(d, i1, b1).len() ==> #[trigger] tree_cascade(d, i1, b1)[j]
            == tree_cascade(d, i2, b2)[j],
{
    lemma_tree_len(d, base, p1, q1, i1, b1);
    lemma_tree_len(d, base, p2, q2, i2, b2);
}

/// How many sibling trees follow the first ones changes nothing in them
/// while the last of them is not the last sibling.
proof fn lemma_forest_count(f: Seq<Dom>, c1: int, c2: int, start: int, parent: usize)
    requires
        f.len() < c1,
        f.len() < c2,
    ensures
        forest_nodes(f, c1, start, parent) == forest_nodes(f, c2, start, parent),
        forest_cascade(f, c1) == forest_cascade(f, c2),
    decreases f.len(),
{
    if f.len() > 0 {
        lemma_forest_count(f.drop_last(), c1, c2, start, parent);
    }
}

/// The sibling and child links of the nodes `t`, which stand at indices
/// `base` onwards, agree with each other wherever they point inside `t`:
/// a node's previous sibling has it as next sibling and the same parent,
/// a node's next sibling has it as previous sibling and the same parent,
/// and a node's last child has it as parent and no next sibling.
pub open spec fn siblings_agree(t: Seq<Node>, base: int) -> bool {
    forall|j: int| 0 <= j < t.len() ==> #[trigger] sibling_links_agree_at(t, base, j)
}

/// The links of node `j` of `t` (which stands at index `base + j`) agree
/// with the nodes of `t` they point to.
pub open spec fn sibling_links_agree_at(t: Seq<Node>, base: int, j: int) -> bool {
    let prev = t[j].previous_sibling;
    let next = t[j].next_sibling;
    let last = t[j].last_child;
    &&& prev is Some && base <= prev->0 < base + t.len() ==> t[prev->0 - base].next_sibling == Some((base + j) as usize)
        && t[prev->0 - base].parent == t[j].parent
    &&& next is Some && base <= next->0 < base + t.len() ==> t[next->0 - base].previous_sibling == Some((base + j) as usize)
        && t[next->0 - base].parent == t[j].parent
    &&& last is Some && base <= last->0 < base + t.len() ==> t[last->0 - base].parent == Some((base + j) as usize)
        && t[last->0 - base].next_sibling is None
}

/// The links of node `j` of `t` (at index `base + j`) that point into `u`
/// (at index `ubase` onwards) agree with the nodes they point to.
pub open spec fn cross_links_agree_at(t: Seq<Node>, base: int, j: int, u: Seq<Node>, ubase: int) -> bool {
    let prev = t[j].previous_sibling;
    let next = t[j].next_sibling;
    let last = t[j].last_child;
    &&& prev is Some && ubase <= prev->0 < ubase + u.len() ==> u[prev->0 - ubase].next_sibling == Some(
        (base + j) as usize,
    ) && u[prev->0 - ubase].parent == t[j].parent
    &&& next is Some && ubase <= next->0 < ubase + u.len() ==> u[next->0 - ubase].previous_sibling == Some(
        (base + j) as usize,
    ) && u[next->0 - ubase].parent == t[j].parent
    &&& last is Some && ubase <= last->0 < ubase + u.len() ==> u[last->0 - ubase].parent == Some((base + j) as usize)
        && u[last->0 - ubase].next_sibling is None
}

/// Two runs of nodes, side by side, whose links agree within each run and
/// across them, have links that agree.
#[verifier::spinoff_prover]
proof fn lemma_concat_siblings(a: Seq<Node>, b: Seq<Node>, start: int)
    requires
        siblings_agree(a, start),
        siblings_agree(b, start + a.len()),
        forall|j: int| 0 <= j < a.len() ==> #[trigger] cross_links_agree_at(a, start, j, b, start + a.len()),
        forall|k: int| 0 <= k < b.len() ==> #[trigger] cross_links_agree_at(b, start + a.len(), k, a, start),
    ensures
        siblings_agree(a + b, start),
{
    let t = a + b;
    let mid = start + a.len();
    assert forall|j: int| 0 <= j < t.len() implies #[trigger] sibling_links_agree_at(t, start, j) by {
        let prev_j = t[j].previous_sibling;
        let next_j = t[j].next_sibling;
        let last_j = t[j].last_child;
        if j < a.len() {
            assert(t[j] == a[j]);
            assert(sibling_links_agree_at(a, start, j));
            assert(cross_links_agree_at(a, start, j, b, mid));
            if prev_j is Some && start <= prev_j->0 < start + t.len() {
                if prev_j->0 < mid {
                    assert(t[prev_j->0 - start] == a[prev_j->0 - start]);
                } else {
                    assert(t[prev_j->0 - start] == b[prev_j->0 - mid]);
                }
            }
            if next_j is Some && start <= next_j->0 < start + t.len() {
                if next_j->0 < mid {
                    assert(t[next_j->0 - start] == a[next_j->0 - start]);
                } else {
                    assert(t[next_j->0 - start] == b[next_j->0 - mid]);
                }
            }
            if last_j is Some && start <= last_j->0 < start + t.len() {
                if last_j->0 < mid {
                    assert(t[last_j->0 - start] == a[last_j->0 - start]);
                } else {
                    assert(t[last_j->0 - start] == b[last_j->0 - mid]);
                }
            }
        } else {
            let k = j - a.len();
            assert(t[j] == b[k]);
            assert(sibling_links_agree_at(b, mid, k));
            assert(cross_links_agree_at(b, mid, k, a, start));
            if prev_j is Some && start <= prev_j->0 < start + t.len() {
                if prev_j->0 < mid {
                    assert(t[prev_j->0 - start] == a[prev_j->0 - start]);
                } else {
                    assert(t[prev_j->0 - start] == b[prev_j->0 - mid]);
                }
            }
            if next_j is Some && start <= next_j->0 < start + t.len() {
                if next_j->0 < mid {
                    assert(t[next_j->0 - start] == a[next_j->0 - start]);
                } else {
                    assert(t[next_j->0 - start] == b[next_j->0 - mid]);
                }
            }
            if last_j is Some && start <= last_j->0 < start + t.len() {
                if last_j->0 < mid {
                    assert(t[last_j->0 - start] == a[last_j->0 - start]);
                } else {
                    assert(t[last_j->0 - start] == b[last_j->0 - mid]);
                }
            }
        }
    }
}

/// The links of a laid-out tree agree with each other.
#[verifier::spinoff_prover]
proof fn lemma_tree_siblings(d: Dom, base: int, parent: Option<usize>, prev: Option<usize>, is_last: bool)
    requires
        0 <= base,
        base + dom_size(d) <= usize::MAX,
        prev matches Some(x) ==> x < base,
    ensures
        siblings_agree(tree_nodes(d, base, parent, prev, is_last), base),
    decreases d, 1int,
{
    let cs = d.children@;
    let n = cs.len();
    let t = tree_nodes(d, base, parent, prev, is_last);
    let f = forest_nodes(cs, n as int, base + 1, base as usize);
    let r = seq![t[0]];
    lemma_tree_links(d, base, parent, prev, is_last);
    lemma_forest_links(cs, n as int, base + 1, base as usize);
    lemma_forest_siblings(cs, n as int, base + 1, base as usize);
    assert(t == r + f);
    if n > 0 {
        assert(forest_size(cs) == forest_size(cs.drop_last()) + dom_size(cs.last()));
    }
    assert(sibling_links_agree_at(r, base, 0));
    assert(cross_links_agree_at(r, base, 0, f, base + 1));
    assert forall|k: int| 0 <= k < f.len() implies #[trigger] cross_links_agree_at(f, base + 1, k, r, base) by {
        assert(t[k + 1] == f[k]);
    }
    lemma_concat_siblings(r, f, base);
}

/// The links of laid-out sibling trees agree with each other.
#[verifier::spinoff_prover]
proof fn lemma_forest_siblings(f: Seq<Dom>, count: int, start: int, parent: usize)
    requires
        1 <= start,
        parent == start - 1,
        f.len() <= count,
        start + forest_size(f) <= usize::MAX,
    ensures
        siblings_agree(forest_nodes(f, count, start, parent), start),
    decreases f, 0int,
{
    lemma_forest_len(f, count, start, parent);
    if f.len() > 0 {
        let i = f.len() - 1;
        let g = f.drop_last();
        let mid = start + forest_size(g);
        let prev = if i == 0 {
            None
        } else {
            Some((start + forest_size(g.drop_last())) as usize)
        };
        if i > 0 {
            assert(forest_size(g) == forest_size(g.drop_last()) + dom_size(g.last()));
        }
        lemma_forest_siblings(g, count, start, parent);
        lemma_forest_links(g, count, start, parent);
        lemma_tree_siblings(f.last(), mid, Some(parent), prev, i == count - 1);
        lemma_tree_links(f.last(), mid, Some(parent), prev, i == count - 1);
        let a = forest_nodes(g, count, start, parent);
        let b = tree_nodes(f.last(), mid, Some(parent), prev, i == count - 1);
        assert(forest_nodes(f, count, start, parent) == a + b);
        assert forall|j: int| 0 <= j < a.len() implies #[trigger] cross_links_agree_at(a, start, j, b, mid) by {
            if a[j].next_sibling is Some && a[j].next_sibling->0 >= mid {
                assert(j == forest_size(g.drop_last()));
            }
        }
        assert forall|k: int| 0 <= k < b.len() implies #[trigger] cross_links_agree_at(b, mid, k, a, start) by {
        }
        lemma_concat_siblings(a, b, start);
    }
}

/// Node `j` of `t` (at index `base + j`), with its parent at an index of
/// `t`: the parent has a last child, which is node `j` exactly when node `j`
/// has no next sibling; and a node without previous sibling comes right
/// after its parent.
pub open spec fn child_shape_at(t: Seq<Node>, base: int, j: int) -> bool {
    let p = t[j].parent->0 - base;
    &&& t[j].previous_sibling is None ==> t[j].parent == Some((base + j - 1) as usize)
    &&& t[p].last_child is Some
    &&& (t[j].next_sibling is None) == (t[p].last_child == Some((base + j) as usize))
}

/// Every node of a laid-out tree but its root has the shape of a child.
#[verifier::spinoff_prover]
proof fn lemma_tree_shape(d: Dom, base: int, parent: Option<usize>, prev: Option<usize>, is_last: bool)
    requires
        0 <= base,
        base + dom_size(d) <= usize::MAX,
    ensures
        forall|j: int| 1 <= j < tree_nodes(d, base, parent, prev, is_last).len() ==> #[trigger] child_shape_at(
            tree_nodes(d, base, parent, prev, is_last),
            base,
            j,
        ),
    decreases d, 1int,
{
    let cs = d.children@;
    let n = cs.len();
    let t = tree_nodes(d, base, parent, prev, is_last);
    let f = forest_nodes(cs, n as int, base + 1, base as usize);
    lemma_tree_links(d, base, parent, prev, is_last);
    lemma_forest_links(cs, n as int, base + 1, base as usize);
    lemma_forest_shape(cs, n as int, base + 1, base as usize);
    assert(t == seq![t[0]] + f);
    if n > 0 {
        assert(forest_size(cs) == forest_size(cs.drop_last()) + dom_size(cs.last()));
    }
    assert forall|j: int| 1 <= j < t.len() implies #[trigger] child_shape_at(t, base, j) by {
        let k = j - 1;
        assert(t[j] == f[k]);
        assert(forest_shape_at(f, base + 1, base as usize, true, forest_size(cs.drop_last()) as int, k));
        let p = t[j].parent->0;
        if p != base {
            assert(t[p - base] == f[p - base - 1]);
        }
    }
}

/// Node `j` of the sibling trees `t` (at index `start + j`, the trees'
/// parent at `parent`): without previous sibling it comes right after its
/// parent; a root of the trees lacks a next sibling exactly when the trees
/// are all the siblings (`complete`) and it is the last one (at
/// `last_root`); any other node has the shape of a child.
pub open spec fn forest_shape_at(t: Seq<Node>, start: int, parent: usize, complete: bool, last_root: int, j: int) -> bool {
    &&& t[j].previous_sibling is None ==> t[j].parent == Some((start + j - 1) as usize)
    &&& t[j].parent == Some(parent) ==> ((t[j].next_sibling is None) == (complete && j == last_root))
    &&& t[j].parent != Some(parent) ==> child_shape_at(t, start, j)
}

/// Every node of laid-out sibling trees has the shape of a child.
#[verifier::spinoff_prover]
proof fn lemma_forest_shape(f: Seq<Dom>, count: int, start: int, parent: usize)
    requires
        1 <= start,
        parent == start - 1,
        f.len() <= count,
        start + forest_size(f) <= usize::MAX,
    ensures
        ({
            let t = forest_nodes(f, count, start, parent);
            let complete = f.len() == count;
            let last_root = forest_size(f.drop_last()) as int;
            forall|j: int| 0 <= j < t.len() ==> #[trigger] forest_shape_at(t, start, parent, complete, last_root, j)
        }),
    decreases f, 0int,
{
    lemma_forest_len(f, count, start, parent);
    if f.len() > 0 {
        let i = f.len() - 1;
        let g = f.drop_last();
        let mid = start + forest_size(g);
        let prev = if i == 0 {
            None
        } else {
            Some((start + forest_size(g.drop_last())) as usize)
        };
        if i > 0 {
            assert(forest_size(g) == forest_size(g.drop_last()) + dom_size(g.last()));
        }
        lemma_forest_shape(g, count, start, parent);
        lemma_forest_links(g, count, start, parent);
        lemma_tree_shape(f.last(), mid, Some(parent), prev, i == count - 1);
        lemma_tree_links(f.last(), mid, Some(parent), prev, i == count - 1);
        let a = forest_nodes(g, count, start, parent);
        let b = tree_nodes(f.last(), mid, Some(parent), prev, i == count - 1);
        let t = forest_nodes(f, count, start, parent);
        assert(t == a + b);
        let complete = f.len() == count;
        let last_root = forest_size(f.drop_last()) as int;
        assert forall|j: int| 0 <= j < t.len() implies #[trigger] forest_shape_at(t, start, parent, complete, last_root, j) by {
            if j < a.len() {
                assert(t[j] == a[j]);
                let a_complete = g.len() == count;
                let a_last = forest_size(g.drop_last()) as int;
                assert(forest_shape_at(a, start, parent, a_complete, a_last, j));
                if t[j].parent != Some(parent) {
                    let p = t[j].parent->0;
                    assert(t[p - start] == a[p - start]);
                }
            } else {
                let k = j - a.len();
                assert(t[j] == b[k]);
                if k > 0 {
                    assert(child_shape_at(b, mid, k));
                    let p = t[j].parent->0;
                    assert(t[p - start] == b[p - mid]);
                }
            }
        }
    }
}

/// A sequence of trees has at least as many nodes as trees.
proof fn lemma_forest_size_at_least_len(f: Seq<Dom>)
    ensures
        forest_size(f) >= f.len(),
    decreases f.len(),
{
    if f.len() > 0 {
        lemma_forest_size_at_least_len(f.drop_last());
        assert(forest_size(f) == forest_size(f.drop_last()) + dom_size(f.last()));
        assert(dom_size(f.last()) >= 1);
    }
}

/// Node `j` of `t` (at index `base + j`) has a place among its siblings
/// that agrees with its links: it is the last child exactly when it has no
/// next sibling, and its index among its siblings is one more than that of
/// its previous sibling (or 0 without one), and at most its own position.
pub open spec fn place_agrees_at(t: Seq<Node>, c: Seq<CascadeInfo>, base: int, j: int) -> bool {
    let prev = t[j].previous_sibling;
    &&& c[j].is_last_child == (t[j].next_sibling is None)
    &&& c[j].index_in_parent == match prev {
        None => 0,
        Some(x) => c[x - base].index_in_parent + 1,
    }
    &&& c[j].index_in_parent <= j
}

/// The places among siblings of a laid-out tree agree with its links.
#[verifier::spinoff_prover]
proof fn lemma_tree_places(d: Dom, base: int, parent: Option<usize>, prev: Option<usize>, index_in_parent: int, is_last: bool)
    requires
        0 <= base,
        base + dom_size(d) <= usize::MAX,
    ensures
        ({
            let t = tree_nodes(d, base, parent, prev, is_last);
            let c = tree_cascade(d, index_in_parent, is_last);
            &&& c[0].is_last_child == (t[0].next_sibling is None)
            &&& forall|j: int| 1 <= j < t.len() ==> #[trigger] place_agrees_at(t, c, base, j)
        }),
    decreases d, 1int,
{
    let cs = d.children@;
    let n = cs.len();
    let t = tree_nodes(d, base, parent, prev, is_last);
    let c = tree_cascade(d, index_in_parent, is_last);
    let f = forest_nodes(cs, n as int, base + 1, base as usize);
    let fc = forest_cascade(cs, n as int);
    lemma_tree_len(d, base, parent, prev, index_in_parent, is_last);
    lemma_forest_len(cs, n as int, base + 1, base as usize);
    lemma_forest_links(cs, n as int, base + 1, base as usize);
    lemma_forest_places(cs, n as int, base + 1, base as usize);
    assert(t == seq![t[0]] + f);
    assert(c == seq![c[0]] + fc);
    assert forall|j: int| 1 <= j < t.len() implies #[trigger] place_agrees_at(t, c, base, j) by {
        let k = j - 1;
        assert(t[j] == f[k]);
        assert(c[j] == fc[k]);
        assert(place_agrees_at(f, fc, base + 1, k));
        if t[j].previous_sibling is Some {
            let x = t[j].previous_sibling->0 as int;
            assert(c[x - base] == fc[x - base - 1]);
        }
    }
}

/// The places among siblings of laid-out sibling trees agree with their
/// links, and the last tree's root is child number `f.len() - 1`.
#[verifier::spinoff_prover]
proof fn lemma_forest_places(f: Seq<Dom>, count: int, start: int, parent: usize)
    requires
        1 <= start,
        parent == start - 1,
        f.len() <= count,
        start + forest_size(f) <= usize::MAX,
    ensures
        ({
            let t = forest_nodes(f, count, start, parent);
            let c = forest_cascade(f, count);
            &&& forall|j: int| 0 <= j < t.len() ==> #[trigger] place_agrees_at(t, c, start, j)
            &&& f.len() > 0 ==> c[forest_size(f.drop_last()) as int].index_in_parent == f.len() - 1
        }),
    decreases f, 0int,
{
    lemma_forest_len(f, count, start, parent);
    if f.len() > 0 {
        let i = f.len() - 1;
        let g = f.drop_last();
        let mid = start + forest_size(g);
        let prev = if i == 0 {
            None
        } else {
            Some((start + forest_size(g.drop_last())) as usize)
        };
        if i > 0 {
            assert(forest_size(g) == forest_size(g.drop_last()) + dom_size(g.last()));
        }
        lemma_forest_size_at_least_len(g);
        lemma_forest_places(g, count, start, parent);
        lemma_forest_links(g, count, start, parent);
        lemma_tree_places(f.last(), mid, Some(parent), prev, i, i == count - 1);
        lemma_tree_links(f.last(), mid, Some(parent), prev, i == count - 1);
        lemma_tree_len(f.last(), mid, Some(parent), prev, i, i == count - 1);
        let a = forest_nodes(g, count, start, parent);
        let ac = forest_cascade(g, count);
        let b = tree_nodes(f.last(), mid, Some(parent), prev, i == count - 1);
        let bc = tree_cascade(f.last(), i, i == count - 1);
        let t = forest_nodes(f, count, start, parent);
        let c = forest_cascade(f, count);
        assert(t == a + b);
        assert(c == ac + bc);
        assert forall|j: int| 0 <= j < t.len() implies #[trigger] place_agrees_at(t, c, start, j) by {
            if j < a.len() {
                assert(t[j] == a[j]);
                assert(c[j] == ac[j]);
                assert(place_agrees_at(a, ac, start, j));
                if t[j].previous_sibling is Some {
                    let x = t[j].previous_sibling->0 as int;
                    assert(c[x - start] == ac[x - start]);
                }
            } else {
                let k = j - a.len();
                assert(t[j] == b[k]);
                assert(c[j] == bc[k]);
                if k == 0 {
                    if i > 0 {
                        let x = forest_size(g.drop_last()) as int;
                        assert(c[x] == ac[x]);
                    }
                } else {
                    assert(place_agrees_at(b, bc, mid, k));
                    if t[j].previous_sibling is Some {
                        let x = t[j].previous_sibling->0 as int;
                        assert(c[x - start] == bc[x - mid]);
                    }
                }
            }
        }
        assert(c[forest_size(g) as int] == bc[0]);
    }
}

/// Laying a tree out further along moves all its links by as much.
#[verifier::spinoff_prover]
proof fn lemma_tree_shift(d: Dom, base: int, off: int, parent: Option<usize>, prev: Option<usize>, is_last: bool)
    requires
        0 <= base,
        0 <= off,
        base + off + dom_size(d) <= usize::MAX,
    ensures
        tree_nodes(d, base + off, shift_link(parent, off), shift_link(prev, off), is_last) == tree_nodes(
            d,
            base,
            parent,
            prev,
            is_last,
        ).map_values(|n: Node| shift_node(n, off)),
    decreases d, 1int,
{
    let cs = d.children@;
    let n = cs.len();
    lemma_forest_shift(cs, n as int, base + 1, base as usize, off);
    lemma_tree_len(d, base, parent, prev, 0, is_last);
    lemma_tree_len(d, base + off, shift_link(parent, off), shift_link(prev, off), 0, is_last);
    if n > 0 {
        assert(forest_size(cs) == forest_size(cs.drop_last()) + dom_size(cs.last()));
    }
    let a = tree_nodes(d, base + off, shift_link(parent, off), shift_link(prev, off), is_last);
    let b = tree_nodes(d, base, parent, prev, is_last).map_values(|n: Node| shift_node(n, off));
    assert(a =~= b);
}

/// Laying sibling trees out further along moves all their links by as much.
#[verifier::spinoff_prover]
proof fn lemma_forest_shift(f: Seq<Dom>, count: int, start: int, parent: usize, off: int)
    requires
        parent < start,
        0 <= off,
        start + off + forest_size(f) <= usize::MAX,
    ensures
        forest_nodes(f, count, start + off, (parent + off) as usize) == forest_nodes(f, count, start, parent).map_values(
            |n: Node| shift_node(n, off),
        ),
    decreases f, 0int,
{
    if f.len() > 0 {
        let i = f.len() - 1;
        let g = f.drop_last();
        if i > 0 {
            assert(forest_size(g) == forest_size(g.drop_last()) + dom_size(g.last()));
        }
        lemma_forest_shift(g, count, start, parent, off);
        let prev = if i == 0 {
            None
        } else {
            Some((start + forest_size(g.drop_last())) as usize)
        };
        lemma_tree_shift(f.last(), start + forest_size(g), off, Some(parent), prev, i == count - 1);
        let shifted_prev = if i == 0 {
            None
        } else {
            Some((start + off + forest_size(g.drop_last())) as usize)
        };
        assert(shift_link(prev, off) == shifted_prev);
        assert(shift_link(Some(parent), off) == Some((parent + off) as usize));
        let a1 = forest_nodes(g, count, start, parent);
        let b1 = tree_nodes(f.last(), start + forest_size(g), Some(parent), prev, i == count - 1);
        assert((a1 + b1).map_values(|n: Node| shift_node(n, off)) =~= a1.map_values(|n: Node| shift_node(n, off))
            + b1.map_values(|n: Node| shift_node(n, off)));
    }
}

/// The node links part of [`law_append_adds_last_child`].
#[verifier::rlimit(40)]
#[verifier::spinoff_prover]
proof fn lemma_append_matches_hierarchy(d1: Dom, d2: Dom, d: Dom)
    requires
        d.root == d1.root,
        d.children@ == d1.children@.push(d2),
        dom_size(d) <= usize::MAX,
    ensures
        appended_hierarchy(tree_nodes(d1, 0, None, None, true), tree_nodes(d2, 0, None, None, true)) == tree_nodes(
            d,
            0,
            None,
            None,
            true,
        ),
{
    let cs = d1.children@;
    let n = cs.len();
    let ds = d.children@;
    assert(ds.drop_last() =~= cs);
    assert(ds.last() == d2);
    let l = dom_size(d1) as int;
    assert(dom_size(d) == l + dom_size(d2));
    let h1 = tree_nodes(d1, 0, None, None, true);
    let o = tree_nodes(d2, 0, None, None, true);
    let h = tree_nodes(d, 0, None, None, true);
    lemma_tree_len(d1, 0, None, None, 0, true);
    lemma_tree_len(d2, 0, None, None, 0, true);
    lemma_tree_len(d, 0, None, None, 0, true);
    let prev = if n == 0 {
        None
    } else {
        Some((1 + forest_size(cs.drop_last())) as usize)
    };
    if n > 0 {
        assert(ds.drop_last().drop_last() =~= cs.drop_last());
        assert(forest_size(cs) == forest_size(cs.drop_last()) + dom_size(cs.last()));
    }
    let t2 = tree_nodes(d2, l, Some(0), prev, true);
    lemma_tree_shift(d2, 0, l, None, None, true);
    lemma_tree_root_only(d2, l, Some(0), prev, true, None, None, true, n as int, 0);
    let f1 = forest_nodes(cs, n as int, 1, 0);
    let f = forest_nodes(cs, n as int + 1, 1, 0);
    assert(h =~= seq![h[0]] + f + t2);
    assert(h1 =~= seq![h1[0]] + f1);
    assert(h1[0].last_child == prev);
    if n > 0 {
        let g = cs.drop_last();
        let bl = 1 + forest_size(g) as int;
        lemma_forest_count(g, n as int, n as int + 1, 1, 0);
        let pg = if n - 1 == 0 {
            None
        } else {
            Some((1 + forest_size(g.drop_last())) as usize)
        };
        lemma_tree_root_only(cs.last(), bl, Some(0), pg, false, Some(0), pg, true, n - 1, n - 1);
        lemma_tree_len(cs.last(), bl, Some(0), pg, n - 1, true);
        lemma_forest_len(g, n as int, 1, 0);
        assert(f =~= forest_nodes(g, n as int, 1, 0) + tree_nodes(cs.last(), bl, Some(0), pg, false));
        assert(f1 =~= forest_nodes(g, n as int, 1, 0) + tree_nodes(cs.last(), bl, Some(0), pg, true));
    }
    lemma_forest_len(cs, n as int, 1, 0);
    lemma_forest_len(cs, n as int + 1, 1, 0);
    let ah = appended_hierarchy(h1, o);
    assert forall|i: int| 0 <= i < h.len() implies #[trigger] ah[i] == h[i] by {
        if i > l {
            assert(t2[i - l] == tree_nodes(d2, l, None, None, true)[i - l]);
        }
    }
    assert(ah =~= h);
}

/// The places-among-siblings part of [`law_append_adds_last_child`].
#[verifier::rlimit(40)]
#[verifier::spinoff_prover]
proof fn lemma_append_matches_cascade(d1: Dom, d2: Dom, d: Dom)
    requires
        d.root == d1.root,
        d.children@ == d1.children@.push(d2),
        dom_size(d) <= usize::MAX,
    ensures
        appended_cascade(tree_nodes(d1, 0, None, None, true), tree_cascade(d1, 0, true), tree_cascade(d2, 0, true))
            == tree_cascade(d, 0, true),
{
    let cs = d1.children@;
    let n = cs.len();
    let ds = d.children@;
    assert(ds.drop_last() =~= cs);
    assert(ds.last() == d2);
    let l = dom_size(d1) as int;
    assert(dom_size(d) == l + dom_size(d2));
    let h1 = tree_nodes(d1, 0, None, None, true);
    lemma_tree_len(d1, 0, None, None, 0, true);
    lemma_tree_len(d2, 0, None, None, 0, true);
    lemma_tree_len(d, 0, None, None, 0, true);
    if n > 0 {
        assert(forest_size(cs) == forest_size(cs.drop_last()) + dom_size(cs.last()));
    }
    let c1 = tree_cascade(d1, 0, true);
    let c = tree_cascade(d, 0, true);
    let oc = tree_cascade(d2, 0, true);
    lemma_tree_root_only(d2, 0, None, None, true, None, None, true, n as int, 0);
    lemma_forest_len(cs, n as int, 1, 0);
    lemma_forest_len(cs, n as int + 1, 1, 0);
    let fc1 = forest_cascade(cs, n as int);
    let fc = forest_cascade(cs, n as int + 1);
    assert(c =~= seq![c[0]] + fc + tree_cascade(d2, n as int, true));
    assert(c1 =~= seq![c1[0]] + fc1);
    if n > 0 {
        let g = cs.drop_last();
        let bl = 1 + forest_size(g) as int;
        lemma_forest_count(g, n as int, n as int + 1, 1, 0);
        lemma_tree_root_only(cs.last(), bl, Some(0), None, false, Some(0), None, true, n - 1, n - 1);
        lemma_forest_len(g, n as int, 1, 0);
        assert(fc =~= forest_cascade(g, n as int) + tree_cascade(cs.last(), n - 1, false));
        assert(fc1 =~= forest_cascade(g, n as int) + tree_cascade(cs.last(), n - 1, true));
        assert(h1[0].last_child == Some((1 + forest_size(g)) as usize));
    }
    let ac = appended_cascade(h1, c1, oc);
    assert forall|i: int| 0 <= i < c.len() implies #[trigger] ac[i] == c[i] by {
        if i > l {
            assert(tree_cascade(d2, n as int, true)[i - l] == oc[i - l]);
        } else if i == l {
            lemma_forest_size_at_least_len(ds);
            if n > 0 {
                let lc = 1 + forest_size(cs.drop_last()) as int;
                assert(c1[lc] == tree_cascade(cs.last(), n - 1, true)[0]);
            }
        }
    }
    assert(ac =~= c);
}

/// Law: appending the styled form of `d2` to the styled form of `d1` gives
/// the styled form of the tree `d` that is `d1` with `d2` added as the last
/// child of its root: the same node links, the same nodes in the same
/// order, and the same places among siblings (the declarations of each
/// node then agree too, as they only depend on the node and the style
/// sheet).
pub proof fn law_append_adds_last_child(d1: Dom, d2: Dom, d: Dom)
    requires
        d.root == d1.root,
        d.children@ == d1.children@.push(d2),
        dom_size(d) <= usize::MAX,
    ensures
        appended_hierarchy(tree_nodes(d1, 0, None, None, true), tree_nodes(d2, 0, None, None, true)) == tree_nodes(
            d,
            0,
            None,
            None,
            true,
        ),
        preorder(d1) + preorder(d2) == preorder(d),
        appended_cascade(tree_nodes(d1, 0, None, None, true), tree_cascade(d1, 0, true), tree_cascade(d2, 0, true))
            == tree_cascade(d, 0, true),
{
    lemma_append_matches_hierarchy(d1, d2, d);
    lemma_append_matches_cascade(d1, d2, d);
    let ds = d.children@;
    assert(ds.drop_last() =~= d1.children@);
    assert(preorder(d1) + preorder(d2) =~= preorder(d));
}

/// The arrays of a flattened DOM while they are being filled.
struct DomArrays {
    node_hierarchy: Vec<Node>,
    node_data: Vec<NodeData>,
    styled_nodes: Vec<StyledNode>,
    cascade_info: Vec<CascadeInfo>,
}

impl DomArrays {
    spec fn len(&self) -> int {
        self.node_hierarchy@.len() as int
    }

    spec fn aligned(&self) -> bool {
        &&& self.node_data@.len() == self.node_hierarchy@.len()
        &&& self.styled_nodes@.len() == self.node_hierarchy@.len()
        &&& self.cascade_info@.len() == self.node_hierarchy@.len()
    }

    /// The nodes from index `lo` on carry the declarations that `css` gives them.
    spec fn styled_from(&self, css: Css, lo: int) -> bool {
        forall|j: int| lo <= j < self.len() ==> {
            &&& (#[trigger] self.styled_nodes@[j]).css_properties@ == cascaded_declarations(css, self.node_data@[j])
            &&& self.styled_nodes@[j].state == normal_state()
        }
    }
}

/// Lays out tree `dom` at the end of `out`, in document order.
#[verifier::spinoff_prover]
fn push_tree(
    out: &mut DomArrays,
    dom: Dom,
    parent: Option<usize>,
    prev: Option<usize>,
    index_in_parent: usize,
    is_last: bool,
    css: &Css,
)
    requires
        old(out).aligned(),
    ensures
        final(out).aligned(),
        final(out).node_hierarchy@ == old(out).node_hierarchy@ + tree_nodes(dom, old(out).len(), parent, prev, is_last),
        final(out).node_data@ == old(out).node_data@ + preorder(dom),
        final(out).cascade_info@ == old(out).cascade_info@ + tree_cascade(dom, index_in_parent as int, is_last),
        final(out).len() == old(out).len() + dom_size(dom),
        forall|j: int| 0 <= j < old(out).len() ==> #[trigger] final(out).styled_nodes@[j] == old(out).styled_nodes@[j],
        final(out).styled_from(*css, old(out).len()),
    decreases dom,
{
    let ghost base = out.len();
    let ghost old_hier = out.node_hierarchy@;
    let ghost old_data = out.node_data@;
    let ghost old_cascade = out.cascade_info@;
    let ghost old_styled = out.styled_nodes@;
    let ghost d = dom;
    let Dom { root, children } = dom;
    let ghost cs = children@;
    let ghost root_data = root;
    let n = children.len();
    let me = out.node_hierarchy.len();
    let styles = cascade(css, &root);
    out.node_hierarchy.push(Node { parent, previous_sibling: prev, next_sibling: None, last_child: None });
    out.node_data.push(root);
    out.cascade_info.push(CascadeInfo { index_in_parent, is_last_child: is_last });
    out.styled_nodes.push(StyledNode {
        state: StyledNodeState { normal: true, hover: false, active: false, focused: false },
        css_properties: styles,
    });
    let ghost placeholder = Node { parent, previous_sibling: prev, next_sibling: None, last_child: None };
    let ghost root_info = CascadeInfo { index_in_parent, is_last_child: is_last };

    let mut children = children;
    let mut pending: Vec<Dom> = Vec::new();
    while children.len() > 0
        invariant
            cs.len() == n,
            children@ == cs.take(children@.len() as int),
            pending@.len() + children@.len() == n,
            forall|j: int| 0 <= j < pending@.len() ==> #[trigger] pending@[j] == cs[n - 1 - j],
        decreases children@.len(),
    {
        let c = children.pop().unwrap();
        pending.push(c);
        proof {
            assert(children@ =~= cs.take(children@.len() as int));
        }
    }

    let mut k: usize = 0;
    let mut prev_child: Option<usize> = None;
    proof {
        assert(cs.take(0) =~= Seq::<Dom>::empty());
        assert(out.node_hierarchy@ =~= old_hier + seq![placeholder] + forest_nodes(cs.take(0), n as int, me + 1, me));
        assert(out.node_data@ =~= old_data + seq![root_data] + forest_preorder(cs.take(0)));
        assert(out.cascade_info@ =~= old_cascade + seq![root_info] + forest_cascade(cs.take(0), n as int));
    }
    while k < n
        invariant
            cs.len() == n,
            me == base,
            cs == d.children@,
            d == dom,
            root_data == d.root,
            pending@.len() == n - k,
            forall|j: int| 0 <= j < pending@.len() ==> #[trigger] pending@[j] == cs[n - 1 - j],
            0 <= k <= n,
            out.aligned(),
            out.node_hierarchy@ == old_hier + seq![placeholder] + forest_nodes(cs.take(k as int), n as int, me + 1, me),
            out.node_data@ == old_data + seq![root_data] + forest_preorder(cs.take(k as int)),
            out.cascade_info@ == old_cascade + seq![root_info] + forest_cascade(cs.take(k as int), n as int),
            out.len() == me + 1 + forest_size(cs.take(k as int)),
            prev_child == if k == 0 {
                None
            } else {
                Some((me + 1 + forest_size(cs.take(k - 1))) as usize)
            },
            forall|j: int| 0 <= j < base ==> #[trigger] out.styled_nodes@[j] == old_styled[j],
            out.styled_from(*css, base),
        decreases n - k,
    {
        let child = pending.pop().unwrap();
        let child_idx = out.node_hierarchy.len();
        let ghost before = out.node_hierarchy@;
        proof {
            assert(child == cs[k as int]);
            assert(decreases_to!(d => d.children));
            assert(decreases_to!(d.children => d.children@));
            assert(decreases_to!(d.children@ => d.children@[k as int]));
            assert(decreases_to!(d => child));
        }
        push_tree(out, child, Some(me), prev_child, k, k + 1 == n, css);
        proof {
            let t = cs.take(k + 1);
            assert(t.drop_last() =~= cs.take(k as int));
            assert(t.last() == cs[k as int]);
            if k > 0 {
                assert(t.drop_last().drop_last() =~= cs.take(k - 1));
            }
            assert(out.node_hierarchy@ =~= old_hier + seq![placeholder] + forest_nodes(t, n as int, me + 1, me));
            assert(out.node_data@ =~= old_data + seq![root_data] + forest_preorder(t));
            assert(out.cascade_info@ =~= old_cascade + seq![root_info] + forest_cascade(t, n as int));
        }
        prev_child = Some(child_idx);
        k = k + 1;
    }
    proof {
        assert(cs.take(n as int) =~= cs);
        lemma_forest_len(cs, n as int, me + 1, me);
    }
    let next_sibling = if is_last { None } else { Some(out.node_hierarchy.len()) };
    out.node_hierarchy.set(me, Node { parent, previous_sibling: prev, next_sibling, last_child: prev_child });
    proof {
        if n > 0 {
            assert(cs.take(n - 1) =~= cs.drop_last());
        }
        assert(out.node_hierarchy@ =~= old_hier + tree_nodes(d, base, parent, prev, is_last));
        assert(out.node_data@ =~= old_data + preorder(d));
        assert(out.cascade_info@ =~= old_cascade + tree_cascade(d, index_in_parent as int, is_last));
    }
}


/// The link moved `offset` places further.
pub open spec fn shift_link(link: Option<usize>, offset: int) -> Option<usize> {
    match link {
        Some(x) => Some((x + offset) as usize),
        None => None,
    }
}

/// The node with all its links moved `offset` places further.
pub open spec fn shift_node(n: Node, offset: int) -> Node {
    Node {
        parent: shift_link(n.parent, offset),
        previous_sibling: shift_link(n.previous_sibling, offset),
        next_sibling: shift_link(n.next_sibling, offset),
        last_child: shift_link(n.last_child, offset),
    }
}

/// Every link of the node points into an array of `len` nodes.
pub open spec fn links_below(n: Node, len: int) -> bool {
    &&& (n.parent matches Some(x) ==> x < len)
    &&& (n.previous_sibling matches Some(x) ==> x < len)
    &&& (n.next_sibling matches Some(x) ==> x < len)
    &&& (n.last_child matches Some(x) ==> x < len)
}

/// The node links after the nodes `o` of a second document are appended
/// as the last child of the root of the nodes `h`: the second document's
/// links move past the first document's nodes, its root gets the first
/// root as parent and the first root's last child as previous sibling, and
/// becomes the first root's last child and that child's next sibling.
pub open spec fn appended_hierarchy(h: Seq<Node>, o: Seq<Node>) -> Seq<Node> {
    let l = h.len() as int;
    let lc = h[0].last_child;
    Seq::new(
        (l + o.len()) as nat,
        |i: int|
            if i == 0 {
                Node { last_child: Some(l as usize), ..h[0] }
            } else if i < l {
                if lc == Some(i as usize) {
                    Node { next_sibling: Some(l as usize), ..h[i] }
                } else {
                    h[i]
                }
            } else if i == l {
                Node { parent: Some(0), previous_sibling: lc, ..shift_node(o[0], l) }
            } else {
                shift_node(o[i - l], l)
            },
    )
}

/// Where the nodes stand among their siblings after the second document
/// (with positions `oc`) is appended to the first one (with links `h` and
/// positions `c`): the second root comes right after the first root's
/// former last child (or first, where the first root had no children), and
/// that former last child no longer is the last.
pub open spec fn appended_cascade(h: Seq<Node>, c: Seq<CascadeInfo>, oc: Seq<CascadeInfo>) -> Seq<CascadeInfo> {
    let l = c.len() as int;
    let lc = h[0].last_child;
    Seq::new(
        (l + oc.len()) as nat,
        |i: int|
            if i < l {
                if lc == Some(i as usize) {
                    CascadeInfo { is_last_child: false, ..c[i] }
                } else {
                    c[i]
                }
            } else if i == l {
                CascadeInfo {
                    index_in_parent: match lc {
                        Some(x) => (c[x as int].index_in_parent + 1) as usize,
                        None => 0,
                    },
                    is_last_child: true,
                }
            } else {
                oc[i - l]
            },
    )
}

/// The links of `h` form a tree in document order: node 0 is the root,
/// without parent or siblings; every other node has a parent before it;
/// a node's previous sibling comes before it, its next sibling and last
/// child after it; every link points into `h`; sibling and child links
/// agree with each other (see [`siblings_agree`]); a node's parent has a
/// last child, which is the node exactly when the node has no next
/// sibling; and a node without previous sibling comes right after its
/// parent (see [`child_shape_at`]).
pub open spec fn hierarchy_well_linked(h: Seq<Node>) -> bool {
    &&& h.len() >= 1
    &&& h[0].parent is None
    &&& h[0].previous_sibling is None
    &&& h[0].next_sibling is None
    &&& forall|i: int| 0 <= i < h.len() ==> links_below(#[trigger] h[i], h.len() as int)
    &&& forall|i: int| 1 <= i < h.len() ==> (#[trigger] h[i].parent matches Some(p) && p < i)
    &&& forall|i: int| 0 <= i < h.len() ==> (#[trigger] h[i].last_child matches Some(c) ==> i < c)
    &&& forall|i: int| 0 <= i < h.len() ==> (#[trigger] h[i].previous_sibling matches Some(x) ==> x < i)
    &&& forall|i: int| 0 <= i < h.len() ==> (#[trigger] h[i].next_sibling matches Some(x) ==> i < x)
    &&& siblings_agree(h, 0)
    &&& forall|i: int| 1 <= i < h.len() ==> #[trigger] child_shape_at(h, 0, i)
}

/// Law: the layout of a DOM tree is well linked.
#[verifier::spinoff_prover]
pub proof fn law_new_well_linked(d: Dom)
    requires
        dom_size(d) <= usize::MAX,
    ensures
        hierarchy_well_linked(tree_nodes(d, 0, None, None, true)),
{
    let h = tree_nodes(d, 0, None, None, true);
    lemma_tree_links(d, 0, None, None, true);
    lemma_tree_siblings(d, 0, None, None, true);
    lemma_tree_shape(d, 0, None, None, true);
    assert forall|i: int| 0 <= i < h.len() implies links_below(#[trigger] h[i], h.len() as int) by {
        if i > 0 {
            assert(h[i].parent matches Some(p) && p < i);
        }
    }
}

/// Facts about the root's last child, and about the links that cannot
/// point at the root or at that child, in a well-linked hierarchy.
#[verifier::spinoff_prover]
proof fn lemma_root_last_child(h: Seq<Node>)
    requires
        hierarchy_well_linked(h),
    ensures
        h[0].last_child is Some ==> h[0].last_child->0 < h.len() && h[h[0].last_child->0 as int].parent == Some(0usize)
            && h[h[0].last_child->0 as int].next_sibling is None,
        forall|i: int| 0 <= i < h.len() && #[trigger] h[i].previous_sibling is Some ==> h[i].previous_sibling->0 != 0
            && h[i].previous_sibling != h[0].last_child,
        forall|i: int| 0 <= i < h.len() && #[trigger] h[i].next_sibling is Some ==> h[i].next_sibling->0 != 0,
        forall|i: int| 0 < i < h.len() && #[trigger] h[i].last_child is Some ==> h[i].last_child != h[0].last_child,
{
    let l = h.len() as int;
    let lc = h[0].last_child;
    assert(sibling_links_agree_at(h, 0, 0));
    assert(links_below(h[0], l));
    assert forall|i: int| 0 <= i < l && #[trigger] h[i].previous_sibling is Some implies h[i].previous_sibling->0 != 0
        && h[i].previous_sibling != lc by {
        assert(sibling_links_agree_at(h, 0, i));
        assert(links_below(h[i], l));
    }
    assert forall|i: int| 0 <= i < l && #[trigger] h[i].next_sibling is Some implies h[i].next_sibling->0 != 0 by {
        assert(sibling_links_agree_at(h, 0, i));
        assert(links_below(h[i], l));
    }
    assert forall|i: int| 0 < i < l && #[trigger] h[i].last_child is Some implies h[i].last_child != lc by {
        assert(sibling_links_agree_at(h, 0, i));
        assert(links_below(h[i], l));
        if h[i].last_child == lc {
            assert(h[lc->0 as int].parent == Some(i as usize));
        }
    }
}

/// The links of an appended hierarchy stay in bounds, parents come first
/// and last children after their parent.
#[verifier::spinoff_prover]
proof fn lemma_append_order(h: Seq<Node>, o: Seq<Node>)
    requires
        hierarchy_well_linked(h),
        hierarchy_well_linked(o),
        h.len() + o.len() <= usize::MAX,
    ensures
        ({
            let a = appended_hierarchy(h, o);
            &&& forall|i: int| 0 <= i < a.len() ==> links_below(#[trigger] a[i], a.len() as int)
            &&& forall|i: int| 1 <= i < a.len() ==> (#[trigger] a[i].parent matches Some(p) && p < i)
            &&& forall|i: int| 0 <= i < a.len() ==> (#[trigger] a[i].last_child matches Some(c) ==> i < c)
            &&& forall|i: int| 0 <= i < a.len() ==> (#[trigger] a[i].previous_sibling matches Some(x) ==> x < i)
            &&& forall|i: int| 0 <= i < a.len() ==> (#[trigger] a[i].next_sibling matches Some(x) ==> i < x)
        }),
{
    let l = h.len() as int;
    let m = o.len() as int;
    let a = appended_hierarchy(h, o);
    assert forall|i: int| 0 <= i < a.len() implies links_below(#[trigger] a[i], a.len() as int) by {
        if i >= l {
            assert(links_below(o[i - l], m));
        } else {
            assert(links_below(h[i], l));
        }
    }
    assert forall|i: int| 1 <= i < a.len() implies (#[trigger] a[i].parent matches Some(p) && p < i) by {
        if i > l {
            assert(o[i - l].parent matches Some(p) && p < i - l);
        } else if i < l {
            assert(h[i].parent matches Some(p) && p < i);
        }
    }
    assert forall|i: int| 0 <= i < a.len() implies (#[trigger] a[i].last_child matches Some(c) ==> i < c) by {
        if i > l {
            assert(o[i - l].last_child matches Some(c) ==> i - l < c);
        } else if i == l {
            assert(o[0].last_child matches Some(c) ==> 0 < c);
        } else if i > 0 {
            assert(h[i].last_child matches Some(c) ==> i < c);
        }
    }
    assert(links_below(h[0], l));
    assert forall|i: int| 0 <= i < a.len() implies (#[trigger] a[i].previous_sibling matches Some(x) ==> x < i) by {
        if i > l {
            assert(o[i - l].previous_sibling matches Some(x) ==> x < i - l);
        } else if i < l {
            assert(h[i].previous_sibling matches Some(x) ==> x < i);
        }
    }
    assert forall|i: int| 0 <= i < a.len() implies (#[trigger] a[i].next_sibling matches Some(x) ==> i < x) by {
        if i > l {
            assert(o[i - l].next_sibling matches Some(x) ==> i - l < x);
        } else if i < l {
            assert(h[i].next_sibling matches Some(x) ==> i < x);
        }
    }
}

/// Every node of an appended hierarchy but its root has the shape of a
/// child.
#[verifier::rlimit(40)]
#[verifier::spinoff_prover]
proof fn lemma_append_shape(h: Seq<Node>, o: Seq<Node>)
    requires
        hierarchy_well_linked(h),
        hierarchy_well_linked(o),
        h.len() + o.len() <= usize::MAX,
    ensures
        forall|g: int| 1 <= g < h.len() + o.len() ==> #[trigger] child_shape_at(appended_hierarchy(h, o), 0, g),
{
    let l = h.len() as int;
    let m = o.len() as int;
    let a = appended_hierarchy(h, o);
    let lc = h[0].last_child;
    lemma_root_last_child(h);
    if lc is None && l > 1 {
        assert(child_shape_at(h, 0, 1));
        assert(h[1].parent matches Some(p) && p < 1);
    }
    assert forall|g: int| 1 <= g < l + m implies #[trigger] child_shape_at(a, 0, g) by {
        if g < l {
            assert(child_shape_at(h, 0, g));
            assert(h[g].parent matches Some(p) && p < g);
            let p = h[g].parent->0 as int;
            if lc == Some(g as usize) {
                assert(p == 0);
            }
        } else if g > l {
            let k = g - l;
            assert(child_shape_at(o, 0, k));
            assert(o[k].parent matches Some(p) && p < k);
            let po = o[k].parent->0 as int;
            assert(a[g] == shift_node(o[k], l));
            if po > 0 {
                assert(a[l + po] == shift_node(o[po], l));
            }
        }
    }
}

/// The links of the first document's nodes agree after the append.
#[verifier::rlimit(30)]
#[verifier::spinoff_prover]
proof fn lemma_append_siblings_first(h: Seq<Node>, o: Seq<Node>)
    requires
        hierarchy_well_linked(h),
        hierarchy_well_linked(o),
        h.len() + o.len() <= usize::MAX,
    ensures
        forall|g: int| 0 <= g < h.len() ==> #[trigger] sibling_links_agree_at(appended_hierarchy(h, o), 0, g),
{
    let l = h.len() as int;
    let a = appended_hierarchy(h, o);
    let lc = h[0].last_child;
    lemma_root_last_child(h);
    assert forall|g: int| 0 <= g < l implies #[trigger] sibling_links_agree_at(a, 0, g) by {
        let prev_g = a[g].previous_sibling;
        let last_g = a[g].last_child;
        if g == 0 {
            assert(o[0].next_sibling is None);
        } else {
            assert(sibling_links_agree_at(h, 0, g));
            assert(links_below(h[g], l));
            if lc == Some(g as usize) {
                if prev_g is Some {
                    assert(prev_g->0 != g) by {
                        if prev_g->0 == g {
                            assert(h[g].next_sibling == Some(g as usize));
                        }
                    }
                }
            }
        }
    }
}

/// The links of the appended document's nodes agree after the append.
#[verifier::rlimit(30)]
#[verifier::spinoff_prover]
proof fn lemma_append_siblings_second(h: Seq<Node>, o: Seq<Node>)
    requires
        hierarchy_well_linked(h),
        hierarchy_well_linked(o),
        h.len() + o.len() <= usize::MAX,
    ensures
        forall|g: int| h.len() <= g < h.len() + o.len() ==> #[trigger] sibling_links_agree_at(appended_hierarchy(h, o), 0, g),
{
    let l = h.len() as int;
    let m = o.len() as int;
    let a = appended_hierarchy(h, o);
    let lc = h[0].last_child;
    lemma_root_last_child(h);
    lemma_root_last_child(o);
    assert forall|g: int| l <= g < l + m implies #[trigger] sibling_links_agree_at(a, 0, g) by {
        let prev_g = a[g].previous_sibling;
        let next_g = a[g].next_sibling;
        let last_g = a[g].last_child;
        let k = g - l;
        assert(sibling_links_agree_at(o, 0, k));
        assert(links_below(o[k], m));
        if g == l {
            if lc is Some {
                assert(a[lc->0 as int] == Node { next_sibling: Some(l as usize), ..h[lc->0 as int] });
            }
            if last_g is Some {
                let c = o[0].last_child->0 as int;
                assert(a[l + c] == shift_node(o[c], l));
            }
        } else {
            if prev_g is Some {
                let x = o[k].previous_sibling->0 as int;
                assert(a[l + x] == shift_node(o[x], l));
            }
            if next_g is Some {
                let x = o[k].next_sibling->0 as int;
                assert(a[l + x] == shift_node(o[x], l));
            }
            if last_g is Some {
                let x = o[k].last_child->0 as int;
                assert(o[k].last_child matches Some(c) ==> k < c);
                assert(a[l + x] == shift_node(o[x], l));
            }
        }
    }
}

/// Law: appending a well-linked hierarchy to another one gives a
/// well-linked hierarchy.
pub proof fn law_append_well_linked(h: Seq<Node>, o: Seq<Node>)
    requires
        hierarchy_well_linked(h),
        hierarchy_well_linked(o),
        h.len() + o.len() <= usize::MAX,
    ensures
        hierarchy_well_linked(appended_hierarchy(h, o)),
{
    let a = appended_hierarchy(h, o);
    lemma_append_order(h, o);
    lemma_append_siblings_first(h, o);
    lemma_append_siblings_second(h, o);
    lemma_append_shape(h, o);
    assert forall|g: int| 0 <= g < a.len() implies #[trigger] sibling_links_agree_at(a, 0, g) by {
        if g < h.len() {
        } else {
        }
    }
}

/// The places among siblings `c` agree with the links `h` (see
/// [`place_agrees_at`]).
pub open spec fn places_agree(h: Seq<Node>, c: Seq<CascadeInfo>) -> bool {
    &&& c.len() == h.len()
    &&& forall|i: int| 0 <= i < h.len() ==> #[trigger] place_agrees_at(h, c, 0, i)
}

/// Law: the places among siblings of a laid-out tree agree with its links.
#[verifier::spinoff_prover]
pub proof fn law_new_places_agree(d: Dom)
    requires
        dom_size(d) <= usize::MAX,
    ensures
        places_agree(tree_nodes(d, 0, None, None, true), tree_cascade(d, 0, true)),
{
    let h = tree_nodes(d, 0, None, None, true);
    let c = tree_cascade(d, 0, true);
    lemma_tree_len(d, 0, None, None, 0, true);
    lemma_tree_places(d, 0, None, None, 0, true);
    assert(place_agrees_at(h, c, 0, 0));
}

/// Law: appending keeps the places among siblings in agreement with the
/// links.
#[verifier::rlimit(40)]
#[verifier::spinoff_prover]
pub proof fn law_append_places_agree(h: Seq<Node>, c: Seq<CascadeInfo>, o: Seq<Node>, oc: Seq<CascadeInfo>)
    requires
        hierarchy_well_linked(h),
        hierarchy_well_linked(o),
        places_agree(h, c),
        places_agree(o, oc),
        h.len() + o.len() <= usize::MAX,
    ensures
        places_agree(appended_hierarchy(h, o), appended_cascade(h, c, oc)),
{
    let l = h.len() as int;
    let m = o.len() as int;
    let a = appended_hierarchy(h, o);
    let ac = appended_cascade(h, c, oc);
    let lc = h[0].last_child;
    lemma_root_last_child(h);
    lemma_root_last_child(o);
    if lc is Some {
        assert(place_agrees_at(h, c, 0, lc->0 as int));
    }
    assert forall|g: int| 0 <= g < a.len() implies #[trigger] place_agrees_at(a, ac, 0, g) by {
        if g < l {
            assert(place_agrees_at(h, c, 0, g));
            assert(links_below(h[g], l));
        } else if g > l {
            let k = g - l;
            assert(place_agrees_at(o, oc, 0, k));
            assert(links_below(o[k], m));
            assert(a[g] == shift_node(o[k], l));
            if o[k].previous_sibling is Some {
                let x = o[k].previous_sibling->0 as int;
                assert(ac[l + x] == oc[x]);
            }
        }
    }
}

/// A DOM flattened into arrays in document order, with the declarations
/// that a style sheet gives each node. Node 0 is the root; every other node
/// has a parent before it, and every link points into the arrays.
#[derive(Debug)]
pub struct StyledDom {
    root: usize,
    node_hierarchy: Vec<Node>,
    node_data: Vec<NodeData>,
    styled_nodes: Vec<StyledNode>,
    cascade_info: Vec<CascadeInfo>,
}

impl StyledDom {
    #[verifier::type_invariant]
    spec fn well_formed(&self) -> bool {
        let h = self.node_hierarchy@;
        &&& self.root == 0
        &&& h.len() >= 1
        &&& self.node_data@.len() == h.len()
        &&& self.styled_nodes@.len() == h.len()
        &&& self.cascade_info@.len() == h.len()
        &&& hierarchy_well_linked(h)
        &&& places_agree(h, self.cascade_info@)
    }

    /// The index of the root node.
    pub closed spec fn root_index(&self) -> usize {
        self.root
    }

    /// The links of the nodes, in document order.
    pub closed spec fn hierarchy(&self) -> Seq<Node> {
        self.node_hierarchy@
    }

    /// The content of the nodes, in document order.
    pub closed spec fn data(&self) -> Seq<NodeData> {
        self.node_data@
    }

    /// The styled nodes, in document order.
    pub closed spec fn styles(&self) -> Seq<StyledNode> {
        self.styled_nodes@
    }

    /// Where each node stands among its siblings, in document order.
    pub closed spec fn cascade(&self) -> Seq<CascadeInfo> {
        self.cascade_info@
    }

    /// The node arrays hang together: they all have one entry per node,
    /// node 0 is the root, the links form a tree (see
    /// [`hierarchy_well_linked`]), and the places among siblings agree with
    /// the links (see [`places_agree`]).
    pub open spec fn well_linked(&self) -> bool {
        let h = self.hierarchy();
        &&& self.root_index() == 0
        &&& h.len() >= 1
        &&& self.data().len() == h.len()
        &&& self.styles().len() == h.len()
        &&& self.cascade().len() == h.len()
        &&& hierarchy_well_linked(h)
        &&& places_agree(h, self.cascade())
    }

    /// Styles a DOM with a style sheet: lays the DOM out in document order
    /// and gives each node the declarations of the rules that match it,
    /// followed by its inline declarations. Takes a time in the order of the
    /// number of nodes times the number of rules.
    pub fn new(dom: Dom, css: Css) -> (res: Self)
        ensures
            res.well_linked(),
            res.hierarchy() == tree_nodes(dom, 0, None, None, true),
            res.data() == preorder(dom),
            res.cascade() == tree_cascade(dom, 0, true),
            res.styles().len() == dom_size(dom),
            forall|i: int| 0 <= i < res.styles().len() ==> {
                &&& (#[trigger] res.styles()[i]).css_properties@ == cascaded_declarations(css, res.data()[i])
                &&& res.styles()[i].state == normal_state()
            },
    {
        let mut out = DomArrays {
            node_hierarchy: Vec::new(),
            node_data: Vec::new(),
            styled_nodes: Vec::new(),
            cascade_info: Vec::new(),
        };
        let ghost d = dom;
        push_tree(&mut out, dom, None, None, 0, true, &css);
        let total = out.node_hierarchy.len();
        proof {
            assert(out.node_hierarchy@ =~= tree_nodes(d, 0, None, None, true));
            assert(out.node_data@ =~= preorder(d));
            assert(out.cascade_info@ =~= tree_cascade(d, 0, true));
            law_new_well_linked(d);
            law_new_places_agree(d);
        }
        let DomArrays { node_hierarchy, node_data, styled_nodes, cascade_info } = out;
        let res = StyledDom { root: 0, node_hierarchy, node_data, styled_nodes, cascade_info };
        proof {
            use_type_invariant(&res);
        }
        res
    }

    /// Appends an already styled DOM as the last child of the root: its
    /// nodes follow the current ones, with their links moved past them.
    /// Takes a time in the order of the number of nodes.
    pub fn append(&mut self, dom: StyledDom)
        requires
            old(self).hierarchy().len() + dom.hierarchy().len() <= usize::MAX,
        ensures
            old(self).well_linked(),
            dom.well_linked(),
            final(self).well_linked(),
            final(self).hierarchy() == appended_hierarchy(old(self).hierarchy(), dom.hierarchy()),
            final(self).data() == old(self).data() + dom.data(),
            final(self).styles() == old(self).styles() + dom.styles(),
            final(self).cascade() == appended_cascade(old(self).hierarchy(), old(self).cascade(), dom.cascade()),
    {
        proof {
            use_type_invariant(&*self);
            use_type_invariant(&dom);
        }
        let ghost old_h = self.node_hierarchy@;
        let ghost old_c = self.cascade_info@;
        let ghost old_d = self.node_data@;
        let ghost old_s = self.styled_nodes@;
        let mut this = StyledDom::default();
        std::mem::swap(self, &mut this);
        let StyledDom {
            root: _,
            node_hierarchy: mut h,
            node_data: mut data,
            styled_nodes: mut styled,
            cascade_info: mut cascade,
        } = this;
        let StyledDom {
            root: _,
            node_hierarchy: other_h,
            node_data: mut other_data,
            styled_nodes: mut other_styled,
            cascade_info: other_cascade,
        } = dom;
        let len = h.len();
        let m = other_h.len();
        let root_node = h[0];
        let old_last = root_node.last_child;
        let index_in_parent = match old_last {
            Some(lc) => {
                proof {
                    assert(links_below(old_h[0], old_h.len() as int));
                    assert(place_agrees_at(old_h, old_c, 0, lc as int));
                }
                cascade[lc].index_in_parent + 1
            },
            None => 0,
        };
        h.set(0, Node { last_child: Some(len), ..root_node });
        if let Some(lc) = old_last {
            let n = h[lc];
            h.set(lc, Node { next_sibling: Some(len), ..n });
            let ci = cascade[lc];
            cascade.set(lc, CascadeInfo { is_last_child: false, ..ci });
        }
        let ghost mid_h = h@;
        let mut j: usize = 0;
        while j < m
            invariant
                m == other_h@.len(),
                len == mid_h.len(),
                len + m <= usize::MAX,
                0 <= j <= m,
                h@.len() == len + j,
                forall|i: int| 0 <= i < len ==> #[trigger] h@[i] == mid_h[i],
                forall|k: int| 0 <= k < m ==> links_below(#[trigger] other_h@[k], m as int),
                other_h@[0].parent is None,
                j > 0 ==> h@[len as int] == (Node {
                    parent: Some(0),
                    previous_sibling: old_last,
                    ..shift_node(other_h@[0], len as int)
                }),
                forall|k: int| 0 < k < j ==> #[trigger] h@[len + k] == shift_node(other_h@[k], len as int),
            decreases m - j,
        {
            let n = other_h[j];
            proof {
                assert(links_below(other_h@[j as int], m as int));
            }
            let parent = match n.parent {
                Some(x) => Some(x + len),
                None => None,
            };
            let previous_sibling = match n.previous_sibling {
                Some(x) => Some(x + len),
                None => None,
            };
            let next_sibling = match n.next_sibling {
                Some(x) => Some(x + len),
                None => None,
            };
            let last_child = match n.last_child {
                Some(x) => Some(x + len),
                None => None,
            };
            if j == 0 {
                h.push(Node { parent: Some(0), previous_sibling: old_last, next_sibling, last_child });
            } else {
                h.push(Node { parent, previous_sibling, next_sibling, last_child });
            }
            j = j + 1;
        }
        cascade.push(CascadeInfo { index_in_parent, is_last_child: true });
        let ghost mid_c = cascade@;
        let mut j: usize = 1;
        while j < m
            invariant
                m == other_cascade@.len(),
                mid_c.len() == len + 1,
                1 <= j <= m,
                cascade@.len() == len + j,
                forall|i: int| 0 <= i <= len ==> #[trigger] cascade@[i] == mid_c[i],
                forall|k: int| 0 < k < j ==> #[trigger] cascade@[len + k] == other_cascade@[k],
            decreases m - j,
        {
            cascade.push(other_cascade[j]);
            j = j + 1;
        }
        data.append(&mut other_data);
        styled.append(&mut other_styled);
        proof {
            let ah = appended_hierarchy(old_h, other_h@);
            assert forall|i: int| 0 <= i < h@.len() implies #[trigger] h@[i] == ah[i] by {
                if i < len {
                    assert(h@[i] == mid_h[i]);
                } else if i > len {
                    let k = i - len;
                    assert(h@[len + k] == shift_node(other_h@[k], len as int));
                }
            }
            assert(h@ =~= ah);
            law_append_well_linked(old_h, other_h@);
            let ac = appended_cascade(old_h, old_c, other_cascade@);
            assert forall|i: int| 0 <= i < cascade@.len() implies #[trigger] cascade@[i] == ac[i] by {
                if i <= len {
                    assert(cascade@[i] == mid_c[i]);
                } else {
                    let k = i - len;
                    assert(cascade@[len + k] == other_cascade@[k]);
                }
            }
            assert(cascade@ =~= ac);
            law_append_places_agree(old_h, old_c, other_h@, other_cascade@);
        }
        *self = StyledDom { root: 0, node_hierarchy: h, node_data: data, styled_nodes: styled, cascade_info: cascade };
        proof {
            use_type_invariant(&*self);
        }
    }

    /// The index of the root node.
    pub fn root(&self) -> (res: usize)
        ensures
            res == self.root_index(),
            self.well_linked(),
    {
        proof {
            use_type_invariant(self);
        }
        self.root
    }

    /// The links of the nodes, in document order.
    pub fn node_hierarchy(&self) -> (res: &Vec<Node>)
        ensures
            res@ == self.hierarchy(),
            self.well_linked(),
    {
        proof {
            use_type_invariant(self);
        }
        &self.node_hierarchy
    }

    /// The content of the nodes, in document order.
    pub fn node_data(&self) -> (res: &Vec<NodeData>)
        ensures
            res@ == self.data(),
            self.well_linked(),
    {
        proof {
            use_type_invariant(self);
        }
        &self.node_data
    }

    /// The styled nodes, in document order.
    pub fn styled_nodes(&self) -> (res: &Vec<StyledNode>)
        ensures
            res@ == self.styles(),
            self.well_linked(),
    {
        proof {
            use_type_invariant(self);
        }
        &self.styled_nodes
    }

    /// Where each node stands among its siblings, in document order.
    pub fn cascade_info(&self) -> (res: &Vec<CascadeInfo>)
        ensures
            res@ == self.cascade(),
            self.well_linked(),
    {
        proof {
            use_type_invariant(self);
        }
        &self.cascade_info
    }

    /// The number of nodes.
    pub fn node_count(&self) -> (res: usize)
        ensures
            res == self.hierarchy().len(),
            self.well_linked(),
    {
        proof {
            use_type_invariant(self);
        }
        self.node_hierarchy.len()
    }
}

impl Clone for StyledDom {
    /// A deep copy: the same links, places among siblings, node contents and
    /// declarations.
    fn clone(&self) -> (res: Self)
        ensures
            res.well_linked(),
            res.root_index() == self.root_index(),
            res.hierarchy() == self.hierarchy(),
            res.cascade() == self.cascade(),
            res.data().len() == self.data().len(),
            forall|i: int| 0 <= i < self.data().len() ==> same_node_data(#[trigger] res.data()[i], self.data()[i]),
            res.styles().len() == self.styles().len(),
            forall|i: int| 0 <= i < self.styles().len() ==> same_styled_node(#[trigger] res.styles()[i], self.styles()[i]),
    {
        proof {
            use_type_invariant(self);
        }
        let n = self.node_hierarchy.len();
        let mut node_hierarchy: Vec<Node> = Vec::new();
        let mut node_data: Vec<NodeData> = Vec::new();
        let mut styled_nodes: Vec<StyledNode> = Vec::new();
        let mut cascade_info: Vec<CascadeInfo> = Vec::new();
        let mut i: usize = 0;
        while i < n
            invariant
                n == self.node_hierarchy@.len(),
                n == self.node_data@.len(),
                n == self.styled_nodes@.len(),
                n == self.cascade_info@.len(),
                0 <= i <= n,
                node_hierarchy@ == self.node_hierarchy@.take(i as int),
                cascade_info@ == self.cascade_info@.take(i as int),
                node_data@.len() == i,
                styled_nodes@.len() == i,
                forall|k: int| 0 <= k < i ==> same_node_data(#[trigger] node_data@[k], self.node_data@[k]),
                forall|k: int| 0 <= k < i ==> same_styled_node(#[trigger] styled_nodes@[k], self.styled_nodes@[k]),
            decreases n - i,
        {
            node_hierarchy.push(self.node_hierarchy[i]);
            cascade_info.push(self.cascade_info[i]);
            node_data.push(self.node_data[i].clone());
            styled_nodes.push(self.styled_nodes[i].clone());
            proof {
                assert(self.node_hierarchy@.take(i + 1) =~= self.node_hierarchy@.take(i as int).push(
                    self.node_hierarchy@[i as int],
                ));
                assert(self.cascade_info@.take(i + 1) =~= self.cascade_info@.take(i as int).push(
                    self.cascade_info@[i as int],
                ));
            }
            i = i + 1;
        }
        proof {
            assert(self.node_hierarchy@.take(n as int) =~= self.node_hierarchy@);
            assert(self.cascade_info@.take(n as int) =~= self.cascade_info@);
        }
        StyledDom { root: self.root, node_hierarchy, node_data, styled_nodes, cascade_info }
    }
}

impl Default for StyledDom {
    /// A document with a body and nothing else, without style.
    fn default() -> (res: Self)
        ensures
            res.well_linked(),
            res.hierarchy() == seq![Node { parent: None, previous_sibling: None, next_sibling: None, last_child: None }],
            res.data().len() == 1,
            res.data()[0].node_type is Body,
            res.data()[0].ids_and_classes@.len() == 0,
            res.data()[0].inline_css_props@.len() == 0,
            res.styles().len() == 1,
            res.styles()[0].css_properties@.len() == 0,
            res.styles()[0].state == normal_state(),
            res.cascade() == seq![CascadeInfo { index_in_parent: 0, is_last_child: true }],
    {
        let body = NodeData { node_type: NodeType::Body, ids_and_classes: Vec::new(), inline_css_props: Vec::new() };
        let dom = Dom { root: body, children: Vec::new() };
        let css = Css { rules: Vec::new() };
        let res = StyledDom::new(dom, css);
        proof {
            assert(res.hierarchy() =~= seq![Node { parent: None, previous_sibling: None, next_sibling: None, last_child: None }]);
            assert(preorder(dom) =~= seq![body]);
            assert(res.cascade() =~= seq![CascadeInfo { index_in_parent: 0, is_last_child: true }]);
            reveal_with_fuel(matched_declarations, 1);
        }
        res
    }
}

} // verus!
