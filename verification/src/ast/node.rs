//! Nodes of the syntax tree and their mathematical model.

use vstd::prelude::*;
use crate::ast::style::MarkupStyle;

verus! {

/// A node of the syntax tree.
#[derive(Debug, PartialEq)]
pub enum MarkupNode {
    /// Plain text.
    Text(String),
    /// Inline-formatted run with nested nodes.
    Formatted { style: MarkupStyle, children: Vec<MarkupNode> },
    /// Header `#N# Title`.
    Header { level: u32, children: Vec<MarkupNode> },
    /// List item (`number` is 0 for bulleted items).
    ListItem { ordered: bool, number: u32, children: Vec<MarkupNode> },
    /// Quote `> text`.
    Quote(Vec<MarkupNode>),
    /// Code block.
    CodeBlock { language: String, content: String },
    /// Thematic break.
    ThematicBreak,
    /// Table row: one node list per cell.
    TableRow(Vec<Vec<MarkupNode>>),
    /// Spoiler with an optional title.
    Spoiler { title: Option<String>, children: Vec<MarkupNode> },
    /// Comment.
    Comment(Vec<MarkupNode>),
    /// Formula.
    Formula(Vec<MarkupNode>),
}

/// Mathematical model of a node: texts as character sequences.
pub enum Node {
    Text(Seq<char>),
    Formatted(u32, Seq<Node>),
    Header(u32, Seq<Node>),
    ListItem(bool, u32, Seq<Node>),
    Quote(Seq<Node>),
    CodeBlock(Seq<char>, Seq<char>),
    ThematicBreak,
    TableRow(Seq<Seq<Node>>),
    Spoiler(Option<Seq<char>>, Seq<Node>),
    Comment(Seq<Node>),
    Formula(Seq<Node>),
}

/// Model of an optional string.
pub open spec fn opt_model(o: Option<String>) -> Option<Seq<char>> {
    match o {
        Some(s) => Some(s@),
        None => None,
    }
}

impl MarkupNode {
    /// The node as a mathematical value.
    pub open spec fn model(&self) -> Node
        decreases self,
    {
        match self {
            MarkupNode::Text(s) => Node::Text(s@),
            MarkupNode::Formatted { style, children } => Node::Formatted(style.0, models(children@)),
            MarkupNode::Header { level, children } => Node::Header(*level, models(children@)),
            MarkupNode::ListItem { ordered, number, children } => Node::ListItem(
                *ordered,
                *number,
                models(children@),
            ),
            MarkupNode::Quote(children) => Node::Quote(models(children@)),
            MarkupNode::CodeBlock { language, content } => Node::CodeBlock(language@, content@),
            MarkupNode::ThematicBreak => Node::ThematicBreak,
            MarkupNode::TableRow(cells) => Node::TableRow(rows_model(cells@)),
            MarkupNode::Spoiler { title, children } => Node::Spoiler(opt_model(*title), models(children@)),
            MarkupNode::Comment(children) => Node::Comment(models(children@)),
            MarkupNode::Formula(children) => Node::Formula(models(children@)),
        }
    }
}

/// Models of a sequence of nodes.
pub open spec fn models(v: Seq<MarkupNode>) -> Seq<Node>
    decreases v,
{
    if v.len() == 0 {
        seq![]
    } else {
        models(v.subrange(0, v.len() - 1)).push(v[v.len() - 1].model())
    }
}

/// Models of the cells of a table row.
pub open spec fn rows_model(v: Seq<Vec<MarkupNode>>) -> Seq<Seq<Node>>
    decreases v,
{
    if v.len() == 0 {
        seq![]
    } else {
        rows_model(v.subrange(0, v.len() - 1)).push(models(v[v.len() - 1]@))
    }
}

/// `models` maps each node to its model.
pub broadcast proof fn lemma_models(v: Seq<MarkupNode>)
    ensures
        #[trigger] models(v).len() == v.len(),
        forall|i: int| 0 <= i < v.len() ==> #[trigger] models(v)[i] == v[i].model(),
    decreases v.len(),
{
    if v.len() > 0 {
        lemma_models(v.subrange(0, v.len() - 1));
    }
}

/// `rows_model` maps each cell to its models.
pub broadcast proof fn lemma_rows_model(v: Seq<Vec<MarkupNode>>)
    ensures
        #[trigger] rows_model(v).len() == v.len(),
        forall|i: int| 0 <= i < v.len() ==> #[trigger] rows_model(v)[i] == models(v[i]@),
    decreases v.len(),
{
    if v.len() > 0 {
        lemma_rows_model(v.subrange(0, v.len() - 1));
    }
}

/// The models of a concatenation are the concatenation of the models.
pub proof fn lemma_models_add(a: Seq<MarkupNode>, b: Seq<MarkupNode>)
    ensures
        models(a + b) == models(a) + models(b),
{
    lemma_models(a);
    lemma_models(b);
    lemma_models(a + b);
    assert(models(a + b) =~= models(a) + models(b));
}

/// The models of a pushed sequence.
pub proof fn lemma_models_push(a: Seq<MarkupNode>, n: MarkupNode)
    ensures
        models(a.push(n)) == models(a).push(n.model()),
{
    lemma_models(a);
    lemma_models(a.push(n));
    assert(models(a.push(n)) =~= models(a).push(n.model()));
}

/// The models of a pushed sequence of cells.
pub proof fn lemma_rows_push(a: Seq<Vec<MarkupNode>>, c: Vec<MarkupNode>)
    ensures
        rows_model(a.push(c)) == rows_model(a).push(models(c@)),
{
    lemma_rows_model(a);
    lemma_rows_model(a.push(c));
    assert(rows_model(a.push(c)) =~= rows_model(a).push(models(c@)));
}

/// Two node sequences with equal models at every index have equal models.
pub proof fn lemma_models_ext(a: Seq<MarkupNode>, b: Seq<MarkupNode>)
    requires
        a.len() == b.len(),
        forall|i: int| 0 <= i < a.len() ==> a[i].model() == b[i].model(),
    ensures
        models(a) == models(b),
{
    lemma_models(a);
    lemma_models(b);
    assert(models(a) =~= models(b));
}

/// A copy of a string with the same characters.
pub fn copy_string(s: &String) -> (r: String)
    ensures
        r@ == s@,
{
    s.clone()
}

/// A copy of an optional string.
pub fn copy_opt_string(s: &Option<String>) -> (r: Option<String>)
    ensures
        opt_model(r) == opt_model(*s),
{
    match s {
        Some(t) => Some(t.clone()),
        None => None,
    }
}

/// A deep copy of a node.
pub fn copy_node(n: &MarkupNode) -> (r: MarkupNode)
    ensures
        r.model() == n.model(),
    decreases n,
{
    match n {
        MarkupNode::Text(s) => MarkupNode::Text(s.clone()),
        MarkupNode::Formatted { style, children } => MarkupNode::Formatted {
            style: *style,
            children: copy_nodes(children),
        },
        MarkupNode::Header { level, children } => MarkupNode::Header {
            level: *level,
            children: copy_nodes(children),
        },
        MarkupNode::ListItem { ordered, number, children } => MarkupNode::ListItem {
            ordered: *ordered,
            number: *number,
            children: copy_nodes(children),
        },
        MarkupNode::Quote(children) => MarkupNode::Quote(copy_nodes(children)),
        MarkupNode::CodeBlock { language, content } => MarkupNode::CodeBlock {
            language: language.clone(),
            content: content.clone(),
        },
        MarkupNode::ThematicBreak => MarkupNode::ThematicBreak,
        MarkupNode::TableRow(cells) => MarkupNode::TableRow(copy_rows(cells)),
        MarkupNode::Spoiler { title, children } => MarkupNode::Spoiler {
            title: copy_opt_string(title),
            children: copy_nodes(children),
        },
        MarkupNode::Comment(children) => MarkupNode::Comment(copy_nodes(children)),
        MarkupNode::Formula(children) => MarkupNode::Formula(copy_nodes(children)),
    }
}

/// A deep copy of a node list.
pub fn copy_nodes(v: &Vec<MarkupNode>) -> (r: Vec<MarkupNode>)
    ensures
        models(r@) == models(v@),
    decreases v,
{
    let mut r: Vec<MarkupNode> = Vec::new();
    let mut i: usize = 0;
    while i < v.len()
        invariant
            i <= v.len(),
            r@.len() == i,
            forall|k: int| 0 <= k < i ==> r@[k].model() == v@[k].model(),
        decreases v.len() - i,
    {
        assert(decreases_to!(v => v@[i as int]));
        let c = copy_node(&v[i]);
        r.push(c);
        i += 1;
    }
    proof {
        lemma_models_ext(r@, v@);
    }
    r
}

/// A deep copy of the cells of a table row.
pub fn copy_rows(v: &Vec<Vec<MarkupNode>>) -> (r: Vec<Vec<MarkupNode>>)
    ensures
        rows_model(r@) == rows_model(v@),
    decreases v,
{
    let mut r: Vec<Vec<MarkupNode>> = Vec::new();
    let mut i: usize = 0;
    while i < v.len()
        invariant
            i <= v.len(),
            r@.len() == i,
            forall|k: int| 0 <= k < i ==> models(r@[k]@) == models(v@[k]@),
        decreases v.len() - i,
    {
        assert(decreases_to!(v => v@[i as int]));
        let c = copy_nodes(&v[i]);
        r.push(c);
        i += 1;
    }
    proof {
        lemma_rows_model(r@);
        lemma_rows_model(v@);
        assert(rows_model(r@) =~= rows_model(v@));
    }
    r
}

/// The text node `"\n"` that separates merged lines.
pub fn newline_node() -> (r: MarkupNode)
    ensures
        r.model() == Node::Text(seq!['\n']),
{
    let s = "\n";
    proof {
        reveal_strlit("\n");
    }
    let t = s.to_owned();
    assert(t@ =~= seq!['\n']);
    MarkupNode::Text(t)
}

} // verus!
