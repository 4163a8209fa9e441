use azul::styled_dom::{
    cascade, CascadeInfo, Css, CssDeclaration, CssPathSelector, CssRuleBlock, Dom, IdOrClass, Node, NodeData,
    NodeType, NodeTypeTag, StyledDom, StyledNodeState,
};

fn decl(key: &str, value: &str) -> CssDeclaration {
    CssDeclaration { key: key.to_string(), value: value.to_string() }
}

fn data(node_type: NodeType, ids_and_classes: Vec<IdOrClass>, inline: Vec<CssDeclaration>) -> NodeData {
    NodeData { node_type, ids_and_classes, inline_css_props: inline }
}

fn leaf(node_type: NodeType, ids_and_classes: Vec<IdOrClass>) -> Dom {
    Dom { root: data(node_type, ids_and_classes, vec![]), children: vec![] }
}

fn link(parent: Option<usize>, previous_sibling: Option<usize>, next_sibling: Option<usize>, last_child: Option<usize>) -> Node {
    Node { parent, previous_sibling, next_sibling, last_child }
}

fn info(index_in_parent: usize, is_last_child: bool) -> CascadeInfo {
    CascadeInfo { index_in_parent, is_last_child }
}

/// body.main > (div#a > "hi"), div.x[padding: 5px]
fn first_dom() -> Dom {
    Dom {
        root: data(NodeType::Body, vec![IdOrClass::Class("main".to_string())], vec![]),
        children: vec![
            Dom {
                root: data(NodeType::Div, vec![IdOrClass::Id("a".to_string())], vec![]),
                children: vec![leaf(NodeType::Text("hi".to_string()), vec![])],
            },
            Dom {
                root: data(NodeType::Div, vec![IdOrClass::Class("x".to_string())], vec![decl("padding", "5px")]),
                children: vec![],
            },
        ],
    }
}

/// div.y > br
fn second_dom() -> Dom {
    Dom {
        root: data(NodeType::Div, vec![IdOrClass::Class("y".to_string())], vec![]),
        children: vec![leaf(NodeType::Br, vec![])],
    }
}

/// The first DOM with the second one as last child of the body.
fn joined_dom() -> Dom {
    let mut d = first_dom();
    d.children.push(second_dom());
    d
}

fn style_sheet() -> Css {
    Css {
        rules: vec![
            CssRuleBlock { path: vec![CssPathSelector::Global], declarations: vec![decl("color", "black")] },
            CssRuleBlock { path: vec![CssPathSelector::Type(NodeTypeTag::Div)], declarations: vec![decl("display", "flex")] },
            CssRuleBlock { path: vec![CssPathSelector::Class("x".to_string())], declarations: vec![decl("color", "red")] },
            CssRuleBlock {
                path: vec![CssPathSelector::Type(NodeTypeTag::Div), CssPathSelector::Id("a".to_string())],
                declarations: vec![decl("margin", "0")],
            },
            CssRuleBlock { path: vec![CssPathSelector::Id("b".to_string())], declarations: vec![decl("margin", "9px")] },
        ],
    }
}

#[test]
fn new_lays_nodes_out_in_document_order() {
    let styled = StyledDom::new(first_dom(), style_sheet());
    assert_eq!(styled.root(), 0);
    assert_eq!(styled.node_count(), 4);
    let kinds: Vec<&NodeType> = styled.node_data().iter().map(|n| &n.node_type).collect();
    assert_eq!(kinds, vec![&NodeType::Body, &NodeType::Div, &NodeType::Text("hi".to_string()), &NodeType::Div]);
}

#[test]
fn new_links_parents_siblings_and_last_children() {
    let styled = StyledDom::new(first_dom(), style_sheet());
    assert_eq!(
        styled.node_hierarchy(),
        &vec![
            link(None, None, None, Some(3)),
            link(Some(0), None, Some(3), Some(2)),
            link(Some(1), None, None, None),
            link(Some(0), Some(1), None, None),
        ]
    );
}

#[test]
fn new_records_places_among_siblings() {
    let styled = StyledDom::new(first_dom(), style_sheet());
    assert_eq!(styled.cascade_info(), &vec![info(0, true), info(0, false), info(0, true), info(1, true)]);
}

#[test]
fn new_cascades_rules_then_inline_declarations() {
    let styled = StyledDom::new(first_dom(), style_sheet());
    let props: Vec<&Vec<CssDeclaration>> = styled.styled_nodes().iter().map(|n| &n.css_properties).collect();
    assert_eq!(props[0], &vec![decl("color", "black")]);
    assert_eq!(props[1], &vec![decl("color", "black"), decl("display", "flex"), decl("margin", "0")]);
    assert_eq!(props[2], &vec![decl("color", "black")]);
    assert_eq!(
        props[3],
        &vec![decl("color", "black"), decl("display", "flex"), decl("color", "red"), decl("padding", "5px")]
    );
    for n in styled.styled_nodes().iter() {
        assert_eq!(n.state, StyledNodeState { normal: true, hover: false, active: false, focused: false });
    }
}

#[test]
fn single_node_without_rules() {
    let styled = StyledDom::new(leaf(NodeType::Br, vec![]), Css { rules: vec![] });
    assert_eq!(styled.node_hierarchy(), &vec![link(None, None, None, None)]);
    assert_eq!(styled.cascade_info(), &vec![info(0, true)]);
    assert!(styled.styled_nodes()[0].css_properties.is_empty());
}

#[test]
fn default_is_a_bare_body() {
    let styled = StyledDom::default();
    assert_eq!(styled.node_count(), 1);
    assert_eq!(styled.node_data()[0].node_type, NodeType::Body);
    assert!(styled.styled_nodes()[0].css_properties.is_empty());
}

#[test]
fn cascade_matches_compound_selectors_only_when_all_parts_match() {
    let css = Css {
        rules: vec![CssRuleBlock {
            path: vec![CssPathSelector::Class("x".to_string()), CssPathSelector::Id("k".to_string())],
            declarations: vec![decl("width", "1px")],
        }],
    };
    let both = data(NodeType::Div, vec![IdOrClass::Id("k".to_string()), IdOrClass::Class("x".to_string())], vec![]);
    let class_only = data(NodeType::Div, vec![IdOrClass::Class("x".to_string())], vec![]);
    let id_named_like_class = data(NodeType::Div, vec![IdOrClass::Id("x".to_string()), IdOrClass::Id("k".to_string())], vec![]);
    assert_eq!(cascade(&css, &both), vec![decl("width", "1px")]);
    assert!(cascade(&css, &class_only).is_empty());
    assert!(cascade(&css, &id_named_like_class).is_empty());
}

#[test]
fn append_adds_the_dom_as_last_child_of_the_root() {
    let mut styled = StyledDom::new(first_dom(), style_sheet());
    styled.append(StyledDom::new(second_dom(), style_sheet()));
    assert_eq!(
        styled.node_hierarchy(),
        &vec![
            link(None, None, None, Some(4)),
            link(Some(0), None, Some(3), Some(2)),
            link(Some(1), None, None, None),
            link(Some(0), Some(1), Some(4), None),
            link(Some(0), Some(3), None, Some(5)),
            link(Some(4), None, None, None),
        ]
    );
    assert_eq!(
        styled.cascade_info(),
        &vec![info(0, true), info(0, false), info(0, true), info(1, false), info(2, true), info(0, true)]
    );
    assert_eq!(styled.node_data()[4].node_type, NodeType::Div);
    assert_eq!(styled.node_data()[5].node_type, NodeType::Br);
    assert_eq!(styled.styled_nodes()[5].css_properties, vec![decl("color", "black")]);
}

#[test]
fn append_equals_styling_the_joined_dom() {
    let mut appended = StyledDom::new(first_dom(), style_sheet());
    appended.append(StyledDom::new(second_dom(), style_sheet()));
    let joined = StyledDom::new(joined_dom(), style_sheet());
    assert_eq!(appended.node_hierarchy(), joined.node_hierarchy());
    assert_eq!(appended.node_data(), joined.node_data());
    assert_eq!(appended.cascade_info(), joined.cascade_info());
    assert_eq!(appended.styled_nodes(), joined.styled_nodes());
}

#[test]
fn append_to_a_root_without_children() {
    let mut styled = StyledDom::default();
    styled.append(StyledDom::new(leaf(NodeType::Div, vec![]), Css { rules: vec![] }));
    assert_eq!(styled.node_hierarchy(), &vec![link(None, None, None, Some(1)), link(Some(0), None, None, None)]);
    assert_eq!(styled.cascade_info(), &vec![info(0, true), info(0, true)]);
}

#[test]
fn append_twice_chains_the_siblings() {
    let mut styled = StyledDom::default();
    styled.append(StyledDom::default());
    styled.append(StyledDom::default());
    assert_eq!(
        styled.node_hierarchy(),
        &vec![link(None, None, None, Some(2)), link(Some(0), None, Some(2), None), link(Some(0), Some(1), None, None)]
    );
    assert_eq!(styled.cascade_info(), &vec![info(0, true), info(0, false), info(1, true)]);
}

fn assert_links_agree(styled: &StyledDom) {
    let h = styled.node_hierarchy();
    assert!(!h.is_empty());
    assert_eq!(h[0].parent, None);
    assert_eq!(h[0].previous_sibling, None);
    assert_eq!(h[0].next_sibling, None);
    for (i, n) in h.iter().enumerate() {
        if i > 0 {
            let p = n.parent.unwrap();
            assert!(p < i);
            assert!(h[p].last_child.is_some());
            assert_eq!(n.next_sibling.is_none(), h[p].last_child == Some(i));
            if n.previous_sibling.is_none() {
                assert_eq!(p, i - 1);
            }
        }
        if let Some(p) = n.previous_sibling {
            assert!(p < i);
            assert_eq!(h[p].next_sibling, Some(i));
            assert_eq!(h[p].parent, n.parent);
        }
        if let Some(x) = n.next_sibling {
            assert!(x > i);
            assert_eq!(h[x].previous_sibling, Some(i));
            assert_eq!(h[x].parent, n.parent);
        }
        if let Some(c) = n.last_child {
            assert!(c > i);
            assert_eq!(h[c].parent, Some(i));
            assert_eq!(h[c].next_sibling, None);
        }
    }
}

#[test]
fn links_agree_after_new_and_append() {
    let mut styled = StyledDom::new(joined_dom(), style_sheet());
    assert_links_agree(&styled);
    styled.append(StyledDom::new(first_dom(), style_sheet()));
    assert_links_agree(&styled);
    styled.append(StyledDom::default());
    assert_links_agree(&styled);
    assert_eq!(styled.node_count(), 6 + 4 + 1);
}

#[test]
fn clone_copies_every_array() {
    let mut styled = StyledDom::new(first_dom(), style_sheet());
    styled.append(StyledDom::new(second_dom(), style_sheet()));
    let copy = styled.clone();
    assert_eq!(copy.root(), styled.root());
    assert_eq!(copy.node_hierarchy(), styled.node_hierarchy());
    assert_eq!(copy.node_data(), styled.node_data());
    assert_eq!(copy.styled_nodes(), styled.styled_nodes());
    assert_eq!(copy.cascade_info(), styled.cascade_info());
}

#[test]
fn append_keeps_old_nodes_and_places_new_ones_after_them() {
    let mut styled = StyledDom::new(first_dom(), style_sheet());
    let before = styled.clone();
    let other = StyledDom::new(second_dom(), style_sheet());
    let other_copy = other.clone();
    let n0 = styled.node_count();
    let m = other.node_count();
    styled.append(other);
    assert_eq!(styled.node_count(), n0 + m);
    assert_eq!(&styled.node_data()[..n0], &before.node_data()[..]);
    assert_eq!(&styled.styled_nodes()[..n0], &before.styled_nodes()[..]);
    assert_eq!(&styled.node_data()[n0..], &other_copy.node_data()[..]);
    assert_eq!(&styled.styled_nodes()[n0..], &other_copy.styled_nodes()[..]);
}
