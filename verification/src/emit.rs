//! The tree emitter: walks a document and writes one builder call per line.

use vstd::prelude::*;
use vstd::string::*;
use crate::text::{
    chars_of, is_blank, is_clean, keep_nonblank, lemma_cleaned_text_is_clean,
    lemma_keep_concat, lemma_keep_nonblank, lemma_nonblank_by_witness, lemma_split_concat,
    lemma_split_join, lemma_split_lines_shape, lemma_split_single, lemma_split_suffix,
    remove_empty_lines, remove_first_and_last_line, single_lines, split_lines, string_of, trim,
    trim_chars, trim_start, without_blank_lines, without_boundary_lines,
};
use crate::tree::{AttributeView, Attribute, Document, DocumentView, Element, ElementView, Node, NodeView};

verus! {

/// Four spaces for each level.
pub open spec fn indent(level: nat) -> Seq<char>
    decreases level,
{
    if level == 0 {
        Seq::<char>::empty()
    } else {
        indent((level - 1) as nat) + "    "@
    }
}

/// Whether an attribute name collides with a reserved word of the builder
/// syntax.
pub open spec fn is_reserved(name: Seq<char>) -> bool {
    name == "async"@ || name == "for"@ || name == "type"@
}

/// The name under which an attribute with a value is written: reserved
/// words get the raw-identifier prefix, every other name stays as it is.
pub open spec fn escaped_name(name: Seq<char>) -> Seq<char> {
    if is_reserved(name) {
        "r#"@ + name
    } else {
        name
    }
}

/// The line for a text child; nothing when the text is blank.
pub open spec fn text_line(t: Seq<char>, level: nat) -> Seq<char> {
    if trim(t).len() == 0 {
        Seq::<char>::empty()
    } else {
        indent(level) + ".child(\""@ + trim(t) + "\")\n"@
    }
}

/// The line for the `id`, when there is one.
pub open spec fn id_line(id: Option<Seq<char>>, level: nat) -> Seq<char> {
    match id {
        Some(x) => indent(level) + ".id(\""@ + x + "\")\n"@,
        None => Seq::<char>::empty(),
    }
}

/// The line for one class token.
pub open spec fn class_line(token: Seq<char>, level: nat) -> Seq<char> {
    indent(level) + ".class(\""@ + token + "\")\n"@
}

/// One line per class token, in order.
pub open spec fn class_lines(tokens: Seq<Seq<char>>, level: nat) -> Seq<char>
    decreases tokens.len(),
{
    if tokens.len() == 0 {
        Seq::<char>::empty()
    } else {
        class_lines(tokens.drop_last(), level) + class_line(tokens.last(), level)
    }
}

/// The line for one attribute. `id` and `class` have lines of their own
/// and give nothing here.
pub open spec fn attribute_line(a: AttributeView, level: nat) -> Seq<char> {
    if a.name == "class"@ || a.name == "id"@ {
        Seq::<char>::empty()
    } else {
        match a.value {
            None => indent(level) + "."@ + a.name + "()\n"@,
            Some(v) => indent(level) + ("."@ + escaped_name(a.name) + "(\""@) + v + "\")\n"@,
        }
    }
}

/// One line per attribute other than `id` and `class`, in order.
pub open spec fn attribute_lines(attributes: Seq<AttributeView>, level: nat) -> Seq<char>
    decreases attributes.len(),
{
    if attributes.len() == 0 {
        Seq::<char>::empty()
    } else {
        attribute_lines(attributes.drop_last(), level) + attribute_line(attributes.last(), level)
    }
}

/// The lines of an element before its children: the tag call at `level`,
/// then one level deeper the `id`, each class token, and the other
/// attributes.
pub open spec fn element_head(e: ElementView, level: nat) -> Seq<char> {
    (indent(level) + e.name + "()"@ + "\n"@) + id_line(e.id, level + 1) + class_lines(
        e.classes,
        level + 1,
    ) + attribute_lines(e.attributes, level + 1)
}

/// The lines that visiting `handle` at `level` writes. `depth` is how many
/// levels of nesting may still be entered: a handle met when none is left,
/// like one that does not resolve, gives nothing. The allowance makes the
/// walk end on a table with a cycle; on one without it is never used up
/// (`lemma_depth_is_enough`).
pub open spec fn node_lines(nodes: Seq<NodeView>, handle: u32, level: nat, depth: nat) -> Seq<char>
    decreases depth, 0nat,
{
    if depth == 0 || handle >= nodes.len() {
        Seq::<char>::empty()
    } else {
        match nodes[handle as int] {
            NodeView::Comment => Seq::<char>::empty(),
            NodeView::Text(t) => text_line(t, level),
            NodeView::Element(e) => (indent(level) + ".child(\n"@) + element_head(e, level)
                + children_lines(nodes, e.children, level + 1, (depth - 1) as nat) + (indent(level)
                + ")\n"@),
        }
    }
}

/// The lines of each of `children`, in order.
pub open spec fn children_lines(
    nodes: Seq<NodeView>,
    children: Seq<u32>,
    level: nat,
    depth: nat,
) -> Seq<char>
    decreases depth, 1 + children.len(),
{
    if children.len() == 0 {
        Seq::<char>::empty()
    } else {
        children_lines(nodes, children.drop_last(), level, depth) + node_lines(
            nodes,
            children.last(),
            level,
            depth,
        )
    }
}

/// Everything the walk writes for a document, before any clean-up. The
/// top-level nodes stand at level 1. As a tree cannot nest deeper than it
/// has nodes, the size of the table is the depth allowed.
pub open spec fn document_lines(d: DocumentView) -> Seq<char> {
    children_lines(d.nodes, d.roots, 1, d.nodes.len())
}

/// The finished text of a document when the walk may nest `depth` levels
/// deep.
pub open spec fn dsl_text_within(d: DocumentView, depth: nat) -> Seq<char> {
    without_boundary_lines(without_blank_lines(children_lines(d.nodes, d.roots, 1, depth)))
}

/// The finished text of a document: what the walk writes, without blank
/// lines, and without the first and the last line, which wrap the whole.
pub open spec fn dsl_text(d: DocumentView) -> Seq<char> {
    without_boundary_lines(without_blank_lines(document_lines(d)))
}

/// A comment writes nothing, wherever it stands and whatever the level.
pub proof fn lemma_comment_writes_nothing(
    nodes: Seq<NodeView>,
    handle: u32,
    level: nat,
    depth: nat,
)
    requires
        handle < nodes.len(),
        nodes[handle as int] is Comment,
    ensures
        node_lines(nodes, handle, level, depth).len() == 0,
{
}

/// A handle that points past the table writes nothing.
pub proof fn lemma_unresolved_handle_writes_nothing(
    nodes: Seq<NodeView>,
    handle: u32,
    level: nat,
    depth: nat,
)
    requires
        handle >= nodes.len(),
    ensures
        node_lines(nodes, handle, level, depth).len() == 0,
{
}

/// A text node that is blank writes nothing; any other writes exactly one
/// `.child("..")` call, which holds the text without its outer whitespace.
pub proof fn lemma_text_writes_its_trimmed_form(
    nodes: Seq<NodeView>,
    handle: u32,
    level: nat,
    depth: nat,
    t: Seq<char>,
)
    requires
        handle < nodes.len(),
        nodes[handle as int] == NodeView::Text(t),
        depth > 0,
    ensures
        is_blank(t) ==> node_lines(nodes, handle, level, depth).len() == 0,
        !is_blank(t) ==> node_lines(nodes, handle, level, depth) == indent(level) + ".child(\""@
            + trim(t) + "\")\n"@,
{
}

/// The finished text of any document is clean: it is empty, or none of its
/// lines is blank.
pub proof fn lemma_dsl_text_is_clean(d: DocumentView)
    ensures
        is_clean(dsl_text(d)),
{
    lemma_cleaned_text_is_clean(document_lines(d));
}

/// An entry named `id` or `class` in the attribute list writes nothing
/// there, wherever it stands: the two have their lines before the others.
pub proof fn lemma_id_and_class_entries_write_nothing(a: AttributeView, level: nat)
    requires
        a.name == "id"@ || a.name == "class"@,
    ensures
        attribute_line(a, level).len() == 0,
{
}

/// An attribute with a value whose name is a reserved word is written
/// under the raw identifier: `r#` and the name.
pub proof fn lemma_reserved_name_is_escaped(a: AttributeView, v: Seq<char>, level: nat)
    requires
        is_reserved(a.name),
        a.value == Some(v),
    ensures
        attribute_line(a, level) == indent(level) + ".r#"@ + a.name + "(\""@ + v + "\")\n"@,
{
    reveal_strlit("async");
    reveal_strlit("for");
    reveal_strlit("type");
    reveal_strlit("class");
    reveal_strlit("id");
    reveal_strlit(".");
    reveal_strlit("r#");
    reveal_strlit(".r#");
    assert("async"@.len() == 5 && "for"@.len() == 3 && "type"@.len() == 4);
    assert("class"@.len() == 5 && "id"@.len() == 2);
    assert("async"@[0] == 'a' && "class"@[0] == 'c');
    assert(a.name != "class"@ && a.name != "id"@);
    assert("."@ + "r#"@ =~= ".r#"@);
    assert(indent(level) + ("."@ + ("r#"@ + a.name) + "(\""@) + v + "\")\n"@ =~= indent(level)
        + ".r#"@ + a.name + "(\""@ + v + "\")\n"@);
}

/// An attribute with a value whose name is no reserved word, and neither
/// `id` nor `class`, is written under its own name.
pub proof fn lemma_other_name_is_kept(a: AttributeView, v: Seq<char>, level: nat)
    requires
        !is_reserved(a.name),
        a.name != "id"@,
        a.name != "class"@,
        a.value == Some(v),
    ensures
        attribute_line(a, level) == indent(level) + "."@ + a.name + "(\""@ + v + "\")\n"@,
{
    assert(indent(level) + ("."@ + a.name + "(\""@) + v + "\")\n"@ =~= indent(level) + "."@
        + a.name + "(\""@ + v + "\")\n"@);
}

/// The children of every element have larger handles than the element
/// itself: the order of a table that was filled while reading a document
/// front to back.
pub open spec fn parents_first(nodes: Seq<NodeView>) -> bool {
    forall|i: int, k: int|
        0 <= i < nodes.len() && nodes[i] is Element && 0 <= k < nodes[i]->Element_0.children.len()
            ==> (#[trigger] nodes[i]->Element_0.children[k]) > i
}

/// A ranking of a table gives every node a number below the size of the
/// table, and every child that resolves a smaller number than its parent.
/// A table can be ranked exactly when no node is its own descendant.
pub open spec fn ranked(nodes: Seq<NodeView>, rank: Seq<nat>) -> bool {
    &&& rank.len() == nodes.len()
    &&& forall|i: int| 0 <= i < nodes.len() ==> (#[trigger] rank[i]) < nodes.len()
    &&& forall|i: int, k: int|
        0 <= i < nodes.len() && nodes[i] is Element && 0 <= k
            < nodes[i]->Element_0.children.len() && (
        #[trigger] nodes[i]->Element_0.children[k]) < nodes.len() ==> rank[nodes[i]->Element_0.children[k] as int]
            < rank[i]
}

/// A table has no cycle when it can be ranked.
pub open spec fn has_no_cycle(nodes: Seq<NodeView>) -> bool {
    exists|rank: Seq<nat>| ranked(nodes, rank)
}

/// In a ranked table, a node that may nest deeper than its rank never runs
/// out of depth: any two such allowances give the same lines.
pub proof fn lemma_node_depth_is_enough(
    nodes: Seq<NodeView>,
    rank: Seq<nat>,
    handle: u32,
    level: nat,
    d1: nat,
    d2: nat,
)
    requires
        ranked(nodes, rank),
        handle < nodes.len() ==> d1 > rank[handle as int] && d2 > rank[handle as int],
    ensures
        node_lines(nodes, handle, level, d1) == node_lines(nodes, handle, level, d2),
    decreases
            (if handle < nodes.len() {
                rank[handle as int] + 1
            } else {
                0
            }),
            0nat,
{
    if handle < nodes.len() {
        match nodes[handle as int] {
            NodeView::Element(e) => {
                assert forall|k: int|
                    0 <= k < e.children.len() && e.children[k] < nodes.len() implies rank[e.children[k] as int]
                    < rank[handle as int] by {
                    assert(nodes[handle as int]->Element_0.children[k] < nodes.len());
                }
                lemma_children_depth_is_enough(
                    nodes,
                    rank,
                    e.children,
                    rank[handle as int],
                    level + 1,
                    (d1 - 1) as nat,
                    (d2 - 1) as nat,
                );
            },
            _ => {},
        }
    }
}

/// The same for a run of nodes that all rank below `bound`.
pub proof fn lemma_children_depth_is_enough(
    nodes: Seq<NodeView>,
    rank: Seq<nat>,
    children: Seq<u32>,
    bound: nat,
    level: nat,
    d1: nat,
    d2: nat,
)
    requires
        ranked(nodes, rank),
        forall|k: int|
            0 <= k < children.len() && children[k] < nodes.len() ==> rank[children[k] as int]
                < bound,
        d1 >= bound,
        d2 >= bound,
    ensures
        children_lines(nodes, children, level, d1) == children_lines(nodes, children, level, d2),
    decreases bound, 1 + children.len(),
{
    if children.len() > 0 {
        lemma_children_depth_is_enough(nodes, rank, children.drop_last(), bound, level, d1, d2);
        lemma_node_depth_is_enough(nodes, rank, children.last(), level, d1, d2);
    }
}

/// Of a document whose table has no cycle, the walk writes every node that
/// can be reached: the size of the table is depth enough, and allowing more
/// changes nothing.
pub proof fn lemma_depth_is_enough(d: DocumentView, depth: nat)
    requires
        has_no_cycle(d.nodes),
        depth >= d.nodes.len(),
    ensures
        children_lines(d.nodes, d.roots, 1, depth) == document_lines(d),
{
    let rank = choose|rank: Seq<nat>| ranked(d.nodes, rank);
    lemma_children_depth_is_enough(d.nodes, rank, d.roots, d.nodes.len(), 1, depth, d.nodes.len());
}

/// A table that holds parents first has no cycle.
pub proof fn lemma_parents_first_has_no_cycle(nodes: Seq<NodeView>)
    requires
        parents_first(nodes),
    ensures
        has_no_cycle(nodes),
{
    let n = nodes.len();
    let rank = Seq::new(n, |i: int| (n - 1 - i) as nat);
    assert(ranked(nodes, rank));
}

/// A piece ends its last line when it is empty or ends with `'\n'`.
pub open spec fn ends_lines(t: Seq<char>) -> bool {
    t.len() == 0 || t.last() == '\n'
}

/// The class lines are empty or end with `'\n'`.
proof fn lemma_class_lines_end(tokens: Seq<Seq<char>>, level: nat)
    ensures
        ends_lines(class_lines(tokens, level)),
    decreases tokens.len(),
{
    reveal_strlit("\")\n");
    if tokens.len() > 0 {
        lemma_class_lines_end(tokens.drop_last(), level);
    }
}

/// The attribute lines are empty or end with `'\n'`.
proof fn lemma_attribute_lines_end(attributes: Seq<AttributeView>, level: nat)
    ensures
        ends_lines(attribute_lines(attributes, level)),
    decreases attributes.len(),
{
    reveal_strlit("\")\n");
    reveal_strlit("()\n");
    if attributes.len() > 0 {
        lemma_attribute_lines_end(attributes.drop_last(), level);
        let prev = attribute_lines(attributes.drop_last(), level);
        let line = attribute_line(attributes.last(), level);
        if line.len() == 0 {
            assert(prev + line =~= prev);
        }
    }
}

/// The lines of a node are empty or end with `'\n'`.
proof fn lemma_node_lines_end(nodes: Seq<NodeView>, handle: u32, level: nat, depth: nat)
    ensures
        ends_lines(node_lines(nodes, handle, level, depth)),
{
    reveal_strlit("\")\n");
    reveal_strlit(")\n");
}

/// The lines of a run of nodes are empty or end with `'\n'`.
proof fn lemma_children_lines_end(
    nodes: Seq<NodeView>,
    children: Seq<u32>,
    level: nat,
    depth: nat,
)
    ensures
        ends_lines(children_lines(nodes, children, level, depth)),
    decreases children.len(),
{
    if children.len() > 0 {
        lemma_children_lines_end(nodes, children.drop_last(), level, depth);
        lemma_node_lines_end(nodes, children.last(), level, depth);
        let prev = children_lines(nodes, children.drop_last(), level, depth);
        let line = node_lines(nodes, children.last(), level, depth);
        if line.len() == 0 {
            assert(prev + line =~= prev);
        }
    }
}

/// The lines of an element without the `.child(` and `)` lines around
/// them: its head, then its children one level deeper.
pub open spec fn element_lines(
    nodes: Seq<NodeView>,
    e: ElementView,
    level: nat,
    depth: nat,
) -> Seq<char> {
    element_head(e, level) + children_lines(nodes, e.children, level + 1, depth)
}

/// The lines of an element are not empty and end with `'\n'`.
pub proof fn lemma_element_lines_end(nodes: Seq<NodeView>, e: ElementView, level: nat, depth: nat)
    ensures
        element_lines(nodes, e, level, depth).len() > 0,
        element_lines(nodes, e, level, depth).last() == '\n',
{
    reveal_strlit("\")\n");
    reveal_strlit("\n");
    lemma_class_lines_end(e.classes, level + 1);
    lemma_attribute_lines_end(e.attributes, level + 1);
    lemma_children_lines_end(nodes, e.children, level + 1, depth);
    let tag = indent(level) + e.name + "()"@ + "\n"@;
    assert(tag.len() > 0 && tag.last() == '\n');
    let with_id = tag + id_line(e.id, level + 1);
    assert(with_id.len() > 0 && with_id.last() == '\n');
    let with_classes = with_id + class_lines(e.classes, level + 1);
    assert(with_classes.len() > 0 && with_classes.last() == '\n') by {
        if class_lines(e.classes, level + 1).len() == 0 {
            assert(with_classes =~= with_id);
        }
    }
    let head = with_classes + attribute_lines(e.attributes, level + 1);
    assert(head.len() > 0 && head.last() == '\n') by {
        if attribute_lines(e.attributes, level + 1).len() == 0 {
            assert(head =~= with_classes);
        }
    }
    let all = head + children_lines(nodes, e.children, level + 1, depth);
    if children_lines(nodes, e.children, level + 1, depth).len() == 0 {
        assert(all =~= head);
    }
}

/// Of a document whose one top-level node is an element, the finished
/// text is that element's own lines without the blank ones: the `.child(`
/// and `)` lines that the walk puts around the top-level node are gone.
pub proof fn lemma_single_element_document(d: DocumentView, e: ElementView)
    requires
        d.roots.len() == 1,
        d.roots[0] < d.nodes.len(),
        d.nodes[d.roots[0] as int] == NodeView::Element(e),
    ensures
        dsl_text(d) == without_blank_lines(
            element_lines(d.nodes, e, 1, (d.nodes.len() - 1) as nat),
        ),
{
    reveal_strlit("    ");
    reveal_strlit(".child(\n");
    reveal_strlit(")\n");
    let n = d.nodes.len();
    let none = Seq::<char>::empty();
    let body = element_lines(d.nodes, e, 1, (n - 1) as nat);
    let open = indent(1) + ".child(\n"@;
    let close = indent(1) + ")\n"@;
    assert(indent(1) =~= "    "@) by {
        assert(indent(0) =~= none);
    }
    let raw = document_lines(d);
    assert(raw =~= open + (body + close)) by {
        assert(d.roots.drop_last() =~= Seq::<u32>::empty());
        assert(children_lines(d.nodes, d.roots.drop_last(), 1, n) =~= none);
        assert(d.roots.last() == d.roots[0]);
        assert(node_lines(d.nodes, d.roots[0], 1, n) =~= open + (body + close));
        assert(raw == children_lines(d.nodes, d.roots.drop_last(), 1, n) + node_lines(
            d.nodes,
            d.roots.last(),
            1,
            n,
        ));
    }
    // The first line.
    let first = open.drop_last();
    assert(first.len() == 11 && first[4] == '.');
    lemma_split_single(first);
    assert(split_lines(open) =~= seq![first, none]);
    lemma_split_concat(open, body + close);
    assert(split_lines(open).drop_last() =~= seq![first]);
    // The last lines.
    let last = close.drop_last();
    assert(last.len() == 5 && last[4] == ')');
    assert((body + close).drop_last() =~= body + last);
    lemma_split_suffix(body, last);
    lemma_split_lines_shape(body);
    lemma_element_lines_end(d.nodes, e, 1, (n - 1) as nat);
    let sb = split_lines(body);
    let inner = sb.drop_last();
    assert(sb.last() =~= none) by {
        lemma_split_lines_shape(body.drop_last());
    }
    assert(none + last =~= last);
    let tail = inner.push(last).push(none);
    assert(split_lines(body + close) =~= tail);
    assert(split_lines(raw) == seq![first] + tail);
    // What is kept of them.
    lemma_nonblank_by_witness(first, 4);
    lemma_nonblank_by_witness(last, 4);
    assert(trim(none) =~= none) by {
        assert(trim_start(none) =~= none);
    }
    lemma_keep_concat(seq![first], tail);
    lemma_keep_nonblank(seq![first]);
    assert(keep_nonblank(tail) =~= keep_nonblank(inner).push(last)) by {
        let most = inner.push(last);
        assert(most.drop_last() =~= inner);
        assert(most.last() == last);
        assert(keep_nonblank(most) =~= keep_nonblank(inner).push(last));
        assert(tail.drop_last() =~= most);
        assert(tail.last() == none);
        assert(is_blank(none));
        assert(keep_nonblank(tail) == keep_nonblank(most));
    }
    assert(keep_nonblank(sb) =~= keep_nonblank(inner)) by {
        assert(is_blank(sb.last()));
    }
    let kept = seq![first] + keep_nonblank(inner).push(last);
    assert(keep_nonblank(split_lines(raw)) == kept);
    lemma_keep_nonblank(inner);
    assert(single_lines(inner)) by {
        assert forall|i: int, j: int|
            0 <= i < inner.len() && 0 <= j < inner[i].len() implies (#[trigger] inner[i][j])
            != '\n' by {
            assert(inner[i][j] == sb[i][j]);
        }
    }
    assert(single_lines(kept)) by {
        assert forall|i: int, j: int|
            0 <= i < kept.len() && 0 <= j < kept[i].len() implies (#[trigger] kept[i][j])
            != '\n' by {
            if i == 0 {
                assert(kept[i] == first);
            } else if i < kept.len() - 1 {
                assert(kept[i][j] == keep_nonblank(inner)[i - 1][j]);
            } else {
                assert(kept[i] == last);
            }
        }
    }
    lemma_split_join(kept);
    assert(kept.subrange(1, kept.len() - 1) =~= keep_nonblank(inner));
}

/// Of a document whose one top-level node is an element with a name free
/// of `'\n'`, the finished text begins with the tag call, four spaces deep.
pub proof fn lemma_single_element_first_line(d: DocumentView, e: ElementView)
    requires
        d.roots.len() == 1,
        d.roots[0] < d.nodes.len(),
        d.nodes[d.roots[0] as int] == NodeView::Element(e),
        forall|j: int| 0 <= j < e.name.len() ==> e.name[j] != '\n',
    ensures
        split_lines(dsl_text(d)).len() >= 1,
        split_lines(dsl_text(d))[0] == "    "@ + e.name + "()"@,
{
    reveal_strlit("    ");
    reveal_strlit("()");
    reveal_strlit("\n");
    lemma_single_element_document(d, e);
    let none = Seq::<char>::empty();
    let depth = (d.nodes.len() - 1) as nat;
    let body = element_lines(d.nodes, e, 1, depth);
    assert(indent(1) =~= "    "@) by {
        assert(indent(0) =~= none);
    }
    let call = "    "@ + e.name + "()"@;
    let first = call.push('\n');
    let rest = id_line(e.id, 2) + class_lines(e.classes, 2) + attribute_lines(e.attributes, 2)
        + children_lines(d.nodes, e.children, 2, depth);
    assert(body =~= first + rest);
    assert forall|j: int| 0 <= j < call.len() implies call[j] != '\n' by {
        if 4 <= j < 4 + e.name.len() {
            assert(call[j] == e.name[j - 4]);
        }
    }
    lemma_split_single(call);
    assert(first.drop_last() =~= call);
    assert(split_lines(first) =~= seq![call, none]);
    assert(split_lines(first).drop_last() =~= seq![call]);
    lemma_split_concat(first, rest);
    let at = 4 + e.name.len() as int;
    assert(call[at] == '(');
    lemma_nonblank_by_witness(call, at);
    lemma_keep_nonblank(seq![call]);
    lemma_keep_concat(seq![call], split_lines(rest));
    let kept = keep_nonblank(split_lines(body));
    assert(kept[0] == call);
    lemma_split_lines_shape(body);
    lemma_keep_nonblank(split_lines(body));
    lemma_split_join(kept);
}

/// Appends `a`, then `b`.
fn append2(buf: &mut String, a: &str, b: &str)
    ensures
        final(buf)@ == old(buf)@ + (a@ + b@),
{
    buf.append(a);
    buf.append(b);
    proof {
        assert(buf@ =~= old(buf)@ + (a@ + b@));
    }
}

/// Appends `a`, `b`, `c`, then `d`.
fn append4(buf: &mut String, a: &str, b: &str, c: &str, d: &str)
    ensures
        final(buf)@ == old(buf)@ + (a@ + b@ + c@ + d@),
{
    buf.append(a);
    buf.append(b);
    buf.append(c);
    buf.append(d);
    proof {
        assert(buf@ =~= old(buf)@ + (a@ + b@ + c@ + d@));
    }
}

/// Whether `name` is one of the reserved words.
pub fn name_is_reserved(name: &String) -> (result: bool)
    ensures
        result == is_reserved(name@),
{
    let a = "async".to_owned();
    let f = "for".to_owned();
    let t = "type".to_owned();
    *name == a || *name == f || *name == t
}

/// Writes the line of one attribute; `pad` is the indentation of `level`.
fn emit_attribute(a: &Attribute, pad: &str, buf: &mut String, Ghost(level): Ghost<nat>)
    requires
        pad@ == indent(level),
    ensures
        final(buf)@ == old(buf)@ + attribute_line(a@, level),
{
    let class_key = "class".to_owned();
    let id_key = "id".to_owned();
    if a.name == class_key || a.name == id_key {
        proof {
            assert(buf@ =~= old(buf)@ + attribute_line(a@, level));
        }
    } else {
        match &a.value {
            None => {
                append4(buf, pad, ".", a.name.as_str(), "()\n");
            },
            Some(v) => {
                let mut head = ".".to_owned();
                if name_is_reserved(&a.name) {
                    head.append("r#");
                }
                head.append(a.name.as_str());
                head.append("(\"");
                proof {
                    assert(head@ =~= "."@ + escaped_name(a.name@) + "(\""@);
                }
                append4(buf, pad, head.as_str(), v.as_str(), "\")\n");
            },
        }
    }
}

/// Writes the tag call and the attribute calls of an element; `pad` and
/// `inner` are the indentations of `level` and of the level below it.
fn emit_head(e: &Element, pad: &str, inner: &str, buf: &mut String, Ghost(level): Ghost<nat>)
    requires
        pad@ == indent(level),
        inner@ == indent(level + 1),
    ensures
        final(buf)@ == old(buf)@ + element_head(e@, level),
{
    append4(buf, pad, e.name.as_str(), "()", "\n");
    match &e.id {
        Some(x) => {
            append4(buf, inner, ".id(\"", x.as_str(), "\")\n");
        },
        None => {},
    }
    let ghost after_id = buf@;
    assert(after_id =~= old(buf)@ + ((indent(level) + e@.name + "()"@ + "\n"@) + id_line(
        e@.id,
        level + 1,
    )));
    let n: usize = e.classes.len();
    let mut i: usize = 0;
    while i < n
        invariant
            n == e.classes.len(),
            i <= n,
            inner@ == indent(level + 1),
            buf@ == after_id + class_lines(e@.classes.take(i as int), level + 1),
        decreases n - i,
    {
        proof {
            let next = e@.classes.take(i + 1);
            assert(next.drop_last() =~= e@.classes.take(i as int));
            assert(next.last() == e.classes@[i as int]@);
        }
        append4(buf, inner, ".class(\"", e.classes[i].as_str(), "\")\n");
        proof {
            assert(buf@ =~= after_id + class_lines(e@.classes.take(i + 1), level + 1));
        }
        i = i + 1;
    }
    proof {
        assert(e@.classes.take(n as int) =~= e@.classes);
    }
    let ghost after_classes = buf@;
    let m: usize = e.attributes.len();
    let mut j: usize = 0;
    while j < m
        invariant
            m == e.attributes.len(),
            j <= m,
            inner@ == indent(level + 1),
            buf@ == after_classes + attribute_lines(e@.attributes.take(j as int), level + 1),
        decreases m - j,
    {
        proof {
            let next = e@.attributes.take(j + 1);
            assert(next.drop_last() =~= e@.attributes.take(j as int));
            assert(next.last() == e.attributes@[j as int]@);
        }
        emit_attribute(&e.attributes[j], inner, buf, Ghost(level + 1));
        proof {
            assert(buf@ =~= after_classes + attribute_lines(
                e@.attributes.take(j + 1),
                level + 1,
            ));
        }
        j = j + 1;
    }
    proof {
        assert(e@.attributes.take(m as int) =~= e@.attributes);
        assert(buf@ =~= old(buf)@ + element_head(e@, level));
    }
}

/// Visits the node behind `handle`: writes its lines and, for an element,
/// those of its children, as long as `depth` allows.
fn emit_node(
    doc: &Document,
    handle: u32,
    pad: &str,
    depth: usize,
    buf: &mut String,
    Ghost(level): Ghost<nat>,
)
    requires
        pad@ == indent(level),
    ensures
        final(buf)@ == old(buf)@ + node_lines(doc@.nodes, handle, level, depth as nat),
    decreases depth,
{
    if depth == 0 || handle as usize >= doc.nodes.len() {
        proof {
            assert(buf@ =~= old(buf)@ + node_lines(doc@.nodes, handle, level, depth as nat));
        }
        return;
    }
    match &doc.nodes[handle as usize] {
        Node::Comment => {
            proof {
                assert(buf@ =~= old(buf)@ + node_lines(doc@.nodes, handle, level, depth as nat));
            }
        },
        Node::Text(t) => {
            let chars = chars_of(t.as_str());
            let kept = trim_chars(&chars);
            if kept.len() > 0 {
                let body = string_of(&kept);
                append4(buf, pad, ".child(\"", body.as_str(), "\")\n");
            } else {
                proof {
                    assert(buf@ =~= old(buf)@ + text_line(t@, level));
                }
            }
        },
        Node::Element(e) => {
            let mut inner = pad.to_owned();
            inner.append("    ");
            append2(buf, pad, ".child(\n");
            emit_head(e, pad, inner.as_str(), buf, Ghost(level));
            let ghost start = buf@;
            let n: usize = e.children.len();
            let mut i: usize = 0;
            while i < n
                invariant
                    n == e.children.len(),
                    i <= n,
                    depth > 0,
                    inner@ == indent(level + 1),
                    buf@ == start + children_lines(
                        doc@.nodes,
                        e@.children.take(i as int),
                        level + 1,
                        (depth - 1) as nat,
                    ),
                decreases n - i,
            {
                proof {
                    let next = e@.children.take(i + 1);
                    assert(next.drop_last() =~= e@.children.take(i as int));
                    assert(next.last() == e.children@[i as int]);
                }
                emit_node(doc, e.children[i], inner.as_str(), depth - 1, buf, Ghost(level + 1));
                proof {
                    assert(buf@ =~= start + children_lines(
                        doc@.nodes,
                        e@.children.take(i + 1),
                        level + 1,
                        (depth - 1) as nat,
                    ));
                }
                i = i + 1;
            }
            proof {
                assert(e@.children.take(n as int) =~= e@.children);
            }
            append2(buf, pad, ")\n");
            proof {
                assert(doc@.nodes[handle as int] == NodeView::Element(e@));
                assert(buf@ =~= old(buf)@ + node_lines(doc@.nodes, handle, level, depth as nat));
            }
        },
    }
}

/// Whether the table holds parents first.
pub fn holds_parents_first(doc: &Document) -> (result: bool)
    ensures
        result == parents_first(doc@.nodes),
{
    let n: usize = doc.nodes.len();
    let mut i: usize = 0;
    while i < n
        invariant
            n == doc.nodes.len(),
            i <= n,
            forall|a: int, k: int|
                0 <= a < i && doc@.nodes[a] is Element && 0 <= k
                    < doc@.nodes[a]->Element_0.children.len() ==> (
                #[trigger] doc@.nodes[a]->Element_0.children[k]) > a,
        decreases n - i,
    {
        match &doc.nodes[i] {
            Node::Element(e) => {
                assert(doc@.nodes[i as int] == NodeView::Element(e@));
                let m: usize = e.children.len();
                let mut k: usize = 0;
                while k < m
                    invariant
                        i < doc.nodes.len(),
                        doc@.nodes[i as int] == NodeView::Element(e@),
                        m == e.children.len(),
                        k <= m,
                        forall|j: int| 0 <= j < k ==> e.children@[j] > i,
                    decreases m - k,
                {
                    if e.children[k] as usize <= i {
                        proof {
                            assert(doc@.nodes[i as int]->Element_0.children[k as int] <= i);
                        }
                        return false;
                    }
                    k = k + 1;
                }
            },
            _ => {},
        }
        i = i + 1;
    }
    true
}

/// Walks the document and returns what the walk writes, before any
/// clean-up. On a table without a cycle the depth allowed is never used
/// up: any larger allowance gives the same text.
pub fn emit_lines(doc: &Document) -> (result: String)
    ensures
        result@ == document_lines(doc@),
        has_no_cycle(doc@.nodes) ==> forall|depth: nat|
            depth >= doc@.nodes.len() ==> result@ == #[trigger] children_lines(
                doc@.nodes,
                doc@.roots,
                1,
                depth,
            ),
{
    proof {
        if has_no_cycle(doc@.nodes) {
            assert forall|depth: nat| depth >= doc@.nodes.len() implies document_lines(doc@)
                == #[trigger] children_lines(doc@.nodes, doc@.roots, 1, depth) by {
                lemma_depth_is_enough(doc@, depth);
            }
        }
    }
    let mut buf = String::new();
    let pad = "    ";
    proof {
        assert(indent(1) =~= "    "@) by {
            assert(indent(0) =~= Seq::<char>::empty());
        }
    }
    let depth: usize = doc.nodes.len();
    let n: usize = doc.roots.len();
    let mut i: usize = 0;
    while i < n
        invariant
            n == doc.roots.len(),
            i <= n,
            depth == doc.nodes.len(),
            pad@ == indent(1),
            buf@ == children_lines(doc@.nodes, doc@.roots.take(i as int), 1, depth as nat),
        decreases n - i,
    {
        proof {
            let next = doc@.roots.take(i + 1);
            assert(next.drop_last() =~= doc@.roots.take(i as int));
            assert(next.last() == doc.roots@[i as int]);
        }
        emit_node(doc, doc.roots[i], pad, depth, &mut buf, Ghost(1));
        i = i + 1;
    }
    proof {
        assert(doc@.roots.take(n as int) =~= doc@.roots);
    }
    buf
}

/// The builder text of a document: the walk, then the two clean-up passes.
/// A document that writes fewer than two lines gives the empty text. On a
/// table without a cycle the text is the same however deep the walk may
/// nest beyond the size of the table.
pub fn emit(doc: &Document) -> (result: String)
    ensures
        result@ == dsl_text(doc@),
        is_clean(result@),
        has_no_cycle(doc@.nodes) ==> forall|depth: nat|
            depth >= doc@.nodes.len() ==> result@ == #[trigger] dsl_text_within(doc@, depth),
{
    proof {
        lemma_dsl_text_is_clean(doc@);
        if has_no_cycle(doc@.nodes) {
            assert forall|depth: nat| depth >= doc@.nodes.len() implies dsl_text(doc@)
                == #[trigger] dsl_text_within(doc@, depth) by {
                lemma_depth_is_enough(doc@, depth);
            }
        }
    }
    let buf = emit_lines(doc);
    let kept = remove_empty_lines(buf.as_str());
    remove_first_and_last_line(kept.as_str())
}

} // verus!
