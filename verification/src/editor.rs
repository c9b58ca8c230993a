//! The structural document editor: a model of the parsed configuration
//! document as a token tree, the walk that locates the target package list,
//! and the insert/remove edits that touch nothing outside the list's element
//! sequence and its separating whitespace.

use vstd::prelude::*;

use crate::FritzError;
use crate::text;

verus! {

/// One child of the target list node: either an element node (a package
/// entry) or a plain token (a delimiter or whitespace), with its exact text.
#[derive(Debug)]
pub struct ListItem {
    pub is_element: bool,
    pub text: String,
}

impl Clone for ListItem {
    fn clone(&self) -> (res: Self)
        ensures
            res == *self,
    {
        ListItem { is_element: self.is_element, text: self.text.clone() }
    }
}

/// A node of the modelled document tree. Only the two kinds the walk cares
/// about are distinguished; every other token or node is carried verbatim as
/// text.
#[derive(Debug)]
pub enum DocNode {
    /// Any token or node the walk does not descend into, rendered verbatim.
    Text(String),
    /// A list node: its children in order.
    List(Vec<ListItem>),
    /// A scoping construct: its children in order, traversed transparently.
    Scope(Vec<DocNode>),
}

impl Clone for DocNode {
    fn clone(&self) -> (res: Self)
        ensures
            node_view(res) == node_view(*self),
        decreases self,
    {
        match self {
            DocNode::Text(s) => DocNode::Text(s.clone()),
            DocNode::List(items) => {
                let mut out: Vec<ListItem> = Vec::new();
                let n = items.len();
                let mut i: usize = 0;
                while i < n
                    invariant
                        n == items@.len(),
                        i <= n,
                        out@ =~= items@.subrange(0, i as int),
                    decreases n - i,
                {
                    out.push(items[i].clone());
                    i = i + 1;
                }
                proof {
                    assert(out@ =~= items@);
                }
                DocNode::List(out)
            },
            DocNode::Scope(children) => {
                let mut out: Vec<DocNode> = Vec::new();
                let n = children.len();
                let mut i: usize = 0;
                while i < n
                    invariant
                        *self == DocNode::Scope(*children),
                        n == children@.len(),
                        i <= n,
                        nodes_view(out@).len() == i,
                        forall|j: int|
                            0 <= j < i ==> nodes_view(out@)[j] == node_view(children@[j]),
                    decreases n - i,
                {
                    proof {
                        assert(decreases_to!(*self => self->Scope_0));
                        vstd::std_specs::vec::axiom_vec_index_decreases::<DocNode>(
                            self->Scope_0,
                            i as int,
                        );
                        assert(children@ == self->Scope_0@);
                        assert(decreases_to!(*self => children@[i as int]));
                        lemma_nodes_view_index(out@);
                    }
                    let ghost old_out = out@;
                    out.push(children[i].clone());
                    proof {
                        lemma_nodes_view_push(old_out, out@.last());
                        lemma_nodes_view_index(out@);
                    }
                    i = i + 1;
                }
                proof {
                    lemma_nodes_view_index(out@);
                    lemma_nodes_view_index(children@);
                    assert(nodes_view(out@) =~= nodes_view(children@));
                }
                DocNode::Scope(out)
            },
        }
    }
}

/// Appending one node appends its view.
pub proof fn lemma_nodes_view_push(ns: Seq<DocNode>, x: DocNode)
    ensures
        nodes_view(ns.push(x)) =~= nodes_view(ns).push(node_view(x)),
    decreases ns,
{
    if ns.len() == 0 {
        assert(ns.push(x)[0] == x);
        assert(ns.push(x).drop_first() =~= Seq::<DocNode>::empty());
        assert(nodes_view(ns.push(x).drop_first()) =~= Seq::<NodeView>::empty());
    } else {
        assert(ns.push(x)[0] == ns[0]);
        assert(ns.push(x).drop_first() =~= ns.drop_first().push(x));
        lemma_nodes_view_push(ns.drop_first(), x);
    }
}

/// The parsed configuration document: the text before the managed attribute,
/// the attribute's children as modelled nodes, and the text after it.
#[derive(Debug)]
pub struct ConfigDocument {
    pub prefix: String,
    pub nodes: Vec<DocNode>,
    pub suffix: String,
}

/// The mathematical value of one list item: element flag and text.
pub open spec fn item_view(it: ListItem) -> (bool, Seq<char>) {
    (it.is_element, it.text@)
}

/// The mathematical value of a list's children.
pub open spec fn items_view(s: Seq<ListItem>) -> Seq<(bool, Seq<char>)> {
    s.map_values(|it: ListItem| item_view(it))
}

/// The mathematical value of a document node.
#[verifier::ext_equal]
pub enum NodeView {
    Text(Seq<char>),
    List(Seq<(bool, Seq<char>)>),
    Scope(Seq<NodeView>),
}

/// The mathematical value of an exec document node.
pub open spec fn node_view(n: DocNode) -> NodeView
    decreases n,
{
    match n {
        DocNode::Text(s) => NodeView::Text(s@),
        DocNode::List(items) => NodeView::List(items_view(items@)),
        DocNode::Scope(children) => NodeView::Scope(nodes_view(children@)),
    }
}

/// The mathematical value of a sequence of exec document nodes.
pub open spec fn nodes_view(ns: Seq<DocNode>) -> Seq<NodeView>
    decreases ns,
{
    if ns.len() == 0 {
        Seq::empty()
    } else {
        seq![node_view(ns[0])] + nodes_view(ns.drop_first())
    }
}

/// `nodes_view` maps the sequence pointwise.
pub proof fn lemma_nodes_view_index(ns: Seq<DocNode>)
    ensures
        nodes_view(ns).len() == ns.len(),
        forall|i: int| 0 <= i < ns.len() ==> nodes_view(ns)[i] == node_view(ns[i]),
    decreases ns,
{
    if ns.len() > 0 {
        lemma_nodes_view_index(ns.drop_first());
    }
}

/// The exact text of a list's children, concatenated in order.
pub open spec fn render_items_v(items: Seq<(bool, Seq<char>)>) -> Seq<char>
    decreases items.len(),
{
    if items.len() == 0 {
        Seq::empty()
    } else {
        items[0].1 + render_items_v(items.drop_first())
    }
}

/// The exact text of one modelled node.
pub open spec fn render_node_v(n: NodeView) -> Seq<char>
    decreases n,
{
    match n {
        NodeView::Text(s) => s,
        NodeView::List(items) => render_items_v(items),
        NodeView::Scope(children) => render_nodes_v(children),
    }
}

/// The exact text of a sequence of modelled nodes.
pub open spec fn render_nodes_v(ns: Seq<NodeView>) -> Seq<char>
    decreases ns,
{
    if ns.len() == 0 {
        Seq::empty()
    } else {
        render_node_v(ns[0]) + render_nodes_v(ns.drop_first())
    }
}

impl ConfigDocument {
    /// The modelled children of the managed attribute node.
    pub open spec fn view_nodes(self) -> Seq<NodeView> {
        nodes_view(self.nodes@)
    }

    /// The full text of the document.
    pub open spec fn spec_render(self) -> Seq<char> {
        self.prefix@ + render_nodes_v(self.view_nodes()) + self.suffix@
    }
}

/// The walk that locates the target list: children are scanned in order; the
/// walk descends into the first scoping construct it meets, and the first
/// list it meets is the target.
pub open spec fn locate_items_v(ns: Seq<NodeView>) -> Option<Seq<(bool, Seq<char>)>>
    decreases ns,
{
    if ns.len() == 0 {
        None
    } else {
        match ns[0] {
            NodeView::List(items) => Some(items),
            NodeView::Scope(children) => locate_items_v(children),
            NodeView::Text(_) => locate_items_v(ns.drop_first()),
        }
    }
}

/// The whitespace that precedes an inserted entry: a newline and the fixed
/// four-space indentation.
pub open spec fn ws_item() -> (bool, Seq<char>) {
    (false, "\n    "@)
}

/// The inserted entry itself: an element node carrying the canonical key.
pub open spec fn elem_item(key: Seq<char>) -> (bool, Seq<char>) {
    (true, key)
}

/// Some element of the list carries exactly the text `key`.
pub open spec fn has_element(items: Seq<(bool, Seq<char>)>, key: Seq<char>) -> bool {
    exists|i: int| 0 <= i < items.len() && items[i].0 && items[i].1 == key
}

/// Position `i` holds the first closing-delimiter child of the list.
pub open spec fn is_close_at(items: Seq<(bool, Seq<char>)>, i: int) -> bool {
    &&& 0 <= i < items.len()
    &&& items[i].1 == "]"@
    &&& forall|j: int| 0 <= j < i ==> items[j].1 != "]"@
}

/// The index of the list's closing delimiter, if any child carries it.
pub open spec fn close_idx(items: Seq<(bool, Seq<char>)>) -> Option<int> {
    if exists|i: int| is_close_at(items, i) {
        Some(choose|i: int| is_close_at(items, i))
    } else {
        None
    }
}

/// At most one position is the first closing delimiter.
pub proof fn lemma_close_at_unique(items: Seq<(bool, Seq<char>)>, i: int, j: int)
    requires
        is_close_at(items, i),
        is_close_at(items, j),
    ensures
        i == j,
{
}

/// Where a new entry goes: immediately before the closing delimiter, unless
/// the delimiter's predecessor is a whitespace token holding a newline, in
/// which case one position earlier, before that trailing whitespace.
pub open spec fn insert_pos(items: Seq<(bool, Seq<char>)>, ci: int) -> int {
    if ci > 0 && !items[ci - 1].0 && items[ci - 1].1.contains('\n') {
        ci - 1
    } else {
        ci
    }
}

/// One key reconciled into the list: already-present keys change nothing;
/// otherwise the entry and its leading whitespace are spliced in at the
/// insertion position. `None` when the list has no closing delimiter to
/// insert before.
pub open spec fn spec_insert_one(items: Seq<(bool, Seq<char>)>, key: Seq<char>) -> Option<
    Seq<(bool, Seq<char>)>,
> {
    if has_element(items, key) {
        Some(items)
    } else {
        match close_idx(items) {
            None => None,
            Some(ci) => {
                let p = insert_pos(items, ci);
                Some(
                    items.subrange(0, p) + seq![ws_item(), elem_item(key)] + items.subrange(
                        p,
                        items.len() as int,
                    ),
                )
            },
        }
    }
}

/// All requested keys reconciled into the list, in request order.
pub open spec fn spec_insert_all(items: Seq<(bool, Seq<char>)>, keys: Seq<Seq<char>>) -> Option<
    Seq<(bool, Seq<char>)>,
>
    decreases keys.len(),
{
    if keys.len() == 0 {
        Some(items)
    } else {
        match spec_insert_one(items, keys[0]) {
            None => None,
            Some(m) => spec_insert_all(m, keys.drop_first()),
        }
    }
}

/// The item is an element carrying one of the requested keys.
pub open spec fn is_match(it: (bool, Seq<char>), keys: Seq<Seq<char>>) -> bool {
    it.0 && keys.contains(it.1)
}

/// The item is a whitespace token holding a newline.
pub open spec fn is_nl_ws(it: (bool, Seq<char>)) -> bool {
    !it.0 && it.1.contains('\n')
}

/// The list with every matching element removed, each together with its
/// immediately preceding whitespace token when that token holds a newline.
pub open spec fn spec_remove(items: Seq<(bool, Seq<char>)>, keys: Seq<Seq<char>>) -> Seq<
    (bool, Seq<char>),
>
    decreases items.len(),
{
    if items.len() == 0 {
        items
    } else if is_match(items[0], keys) {
        spec_remove(items.drop_first(), keys)
    } else if items.len() >= 2 && is_nl_ws(items[0]) && is_match(items[1], keys) {
        spec_remove(items.drop_first(), keys)
    } else {
        seq![items[0]] + spec_remove(items.drop_first(), keys)
    }
}

/// Whether some element of the exec list carries exactly the text `key`.
pub fn list_has_element(items: &Vec<ListItem>, key: &str) -> (r: bool)
    ensures
        r == has_element(items_view(items@), key@),
{
    let n = items.len();
    let mut i: usize = 0;
    while i < n
        invariant
            n == items@.len(),
            i <= n,
            forall|j: int|
                0 <= j < i ==> !(items_view(items@)[j].0 && items_view(items@)[j].1 == key@),
        decreases n - i,
    {
        if items[i].is_element && text::str_eq(items[i].text.as_str(), key) {
            assert(items_view(items@)[i as int].0 && items_view(items@)[i as int].1 == key@);
            return true;
        }
        proof {
            assert(items_view(items@)[i as int] == item_view(items@[i as int]));
        }
        i = i + 1;
    }
    false
}

/// The index of the list's closing delimiter, scanning from the front.
pub fn find_close(items: &Vec<ListItem>) -> (r: Option<usize>)
    ensures
        r matches Some(i) ==> is_close_at(items_view(items@), i as int),
        r is None ==> close_idx(items_view(items@)) is None,
{
    let n = items.len();
    let mut i: usize = 0;
    while i < n
        invariant
            n == items@.len(),
            i <= n,
            forall|j: int| 0 <= j < i ==> items_view(items@)[j].1 != "]"@,
        decreases n - i,
    {
        if text::str_eq(items[i].text.as_str(), "]") {
            proof {
                assert(items_view(items@)[i as int] == item_view(items@[i as int]));
            }
            return Some(i);
        }
        proof {
            assert(items_view(items@)[i as int] == item_view(items@[i as int]));
        }
        i = i + 1;
    }
    proof {
        if exists|k: int| is_close_at(items_view(items@), k) {
            let k = choose|k: int| is_close_at(items_view(items@), k);
            assert(items_view(items@)[k].1 != "]"@);
        }
    }
    None
}

/// Whether `t` is one of the requested keys.
pub fn keys_contain(keys: &Vec<String>, t: &str) -> (r: bool)
    ensures
        r == keys.deep_view().contains(t@),
{
    let n = keys.len();
    let mut i: usize = 0;
    while i < n
        invariant
            n == keys@.len(),
            i <= n,
            forall|j: int| 0 <= j < i ==> keys.deep_view()[j] != t@,
        decreases n - i,
    {
        if text::str_eq(keys[i].as_str(), t) {
            assert(keys.deep_view()[i as int] == t@);
            return true;
        }
        i = i + 1;
    }
    assert(forall|j: int| 0 <= j < keys.deep_view().len() ==> keys.deep_view()[j] != t@);
    false
}

/// An exact copy of a list's children.
pub fn clone_items(items: &Vec<ListItem>) -> (r: Vec<ListItem>)
    ensures
        r@ == items@,
{
    let n = items.len();
    let mut out: Vec<ListItem> = Vec::new();
    let mut i: usize = 0;
    while i < n
        invariant
            n == items@.len(),
            i <= n,
            out@ =~= items@.subrange(0, i as int),
        decreases n - i,
    {
        out.push(items[i].clone());
        i = i + 1;
    }
    proof {
        assert(out@ =~= items@);
    }
    out
}

/// Reconciles one key into the list's children; false when the key is
/// absent and the list has no closing delimiter to insert before.
fn insert_one_exec(cur: &mut Vec<ListItem>, key: &String) -> (ok: bool)
    ensures
        ok ==> spec_insert_one(items_view(old(cur)@), key@) == Some(items_view(final(cur)@)),
        !ok ==> spec_insert_one(items_view(old(cur)@), key@) is None && final(cur)@ == old(cur)@,
{
    let ghost cur_v = items_view(cur@);
    if list_has_element(cur, key.as_str()) {
        return true;
    }
    let found = find_close(cur);
    let ci = match found {
        None => {
            return false;
        },
        Some(ci) => ci,
    };
    proof {
        assert(is_close_at(cur_v, ci as int));
        let c = choose|k: int| is_close_at(cur_v, k);
        lemma_close_at_unique(cur_v, ci as int, c);
        assert(close_idx(cur_v) == Some(ci as int));
    }
    let mut p = ci;
    if ci > 0 {
        proof {
            assert(cur_v[ci - 1] == item_view(cur@[ci - 1]));
        }
        let prev_is_elem = cur[ci - 1].is_element;
        if !prev_is_elem && text::contains_newline(cur[ci - 1].text.as_str()) {
            p = ci - 1;
        }
    }
    proof {
        assert(p as int == insert_pos(cur_v, ci as int));
        assert((ci as int) < cur_v.len());
        assert(p <= ci);
    }
    let ghost old_cur = cur@;
    let ws = ListItem { is_element: false, text: "\n    ".to_owned() };
    let el = ListItem { is_element: true, text: key.clone() };
    cur.insert(p, el);
    cur.insert(p, ws);
    proof {
        assert(cur@ =~= old_cur.subrange(0, p as int) + seq![
            ListItem { is_element: false, text: ws.text },
            ListItem { is_element: true, text: el.text },
        ] + old_cur.subrange(p as int, old_cur.len() as int));
        assert forall|j: int| 0 <= j < cur@.len() implies items_view(cur@)[j] == (cur_v.subrange(
            0,
            p as int,
        ) + seq![ws_item(), elem_item(key@)] + cur_v.subrange(p as int, cur_v.len() as int))[j] by {
            assert(items_view(cur@)[j] == item_view(cur@[j]));
            if j < p as int {
                assert(cur_v[j] == item_view(old_cur[j]));
            } else if j >= p + 2 {
                assert(cur_v[j - 2] == item_view(old_cur[j - 2]));
            }
        }
        assert(items_view(cur@) =~= cur_v.subrange(0, p as int) + seq![
            ws_item(),
            elem_item(key@),
        ] + cur_v.subrange(p as int, cur_v.len() as int));
        assert(spec_insert_one(cur_v, key@) == Some(items_view(cur@)));
    }
    true
}

/// Reconciles the requested keys into the list's children, in request order;
/// `None` when a key would have to be inserted but the list has no closing
/// delimiter.
pub fn insert_list(items: &Vec<ListItem>, keys: &Vec<String>) -> (r: Option<Vec<ListItem>>)
    ensures
        r matches Some(its2) ==> spec_insert_all(items_view(items@), keys.deep_view()) == Some(
            items_view(its2@),
        ),
        r is None ==> spec_insert_all(items_view(items@), keys.deep_view()) is None,
{
    let ghost kd = keys.deep_view();
    let nk = keys.len();
    let mut cur = clone_items(items);
    proof {
        assert(kd.skip(0) =~= kd);
    }
    let mut i: usize = 0;
    while i < nk
        invariant
            nk == keys@.len(),
            kd == keys.deep_view(),
            kd.len() == nk,
            i <= nk,
            spec_insert_all(items_view(items@), kd) == spec_insert_all(
                items_view(cur@),
                kd.skip(i as int),
            ),
        decreases nk - i,
    {
        let ghost cur_v = items_view(cur@);
        let ghost rest = kd.skip(i as int);
        proof {
            assert(rest[0] == kd[i as int]);
            assert(rest.drop_first() =~= kd.skip(i + 1));
            assert(kd[i as int] == keys@[i as int]@);
        }
        let key: &String = &keys[i];
        let ok = insert_one_exec(&mut cur, key);
        if !ok {
            proof {
                assert(spec_insert_one(cur_v, rest[0]) is None);
                assert(spec_insert_all(cur_v, rest) is None);
            }
            return None;
        }
        proof {
            assert(spec_insert_one(cur_v, rest[0]) == Some(items_view(cur@)));
            assert(spec_insert_all(cur_v, rest) == spec_insert_all(
                items_view(cur@),
                kd.skip(i + 1),
            ));
        }
        i = i + 1;
    }
    proof {
        assert(kd.skip(nk as int) =~= Seq::<Seq<char>>::empty());
    }
    Some(cur)
}

/// Removes every element matching a requested key, each together with its
/// immediately preceding whitespace token when that token holds a newline.
pub fn remove_list(items: &Vec<ListItem>, keys: &Vec<String>) -> (r: Vec<ListItem>)
    ensures
        items_view(r@) == spec_remove(items_view(items@), keys.deep_view()),
{
    let ghost kd = keys.deep_view();
    let ghost full = items_view(items@);
    let n = items.len();
    let mut out: Vec<ListItem> = Vec::new();
    proof {
        assert(full.skip(0) =~= full);
        assert(items_view(out@) =~= Seq::<(bool, Seq<char>)>::empty());
        assert(items_view(out@) + spec_remove(full, kd) =~= spec_remove(full, kd));
    }
    let mut j: usize = 0;
    while j < n
        invariant
            n == items@.len(),
            kd == keys.deep_view(),
            full == items_view(items@),
            j <= n,
            spec_remove(full, kd) == items_view(out@) + spec_remove(
                full.skip(j as int),
                kd,
            ),
        decreases n - j,
    {
        let ghost tail = full.skip(j as int);
        proof {
            assert(tail[0] == full[j as int]);
            assert(full[j as int] == item_view(items@[j as int]));
            assert(tail.drop_first() =~= full.skip(j + 1));
            if (j + 1) < n {
                assert(tail[1] == full[j + 1]);
                assert(full[j + 1] == item_view(items@[j + 1]));
            }
        }
        let it = &items[j];
        let drop_here: bool = if it.is_element && keys_contain(keys, it.text.as_str()) {
            true
        } else if !it.is_element && text::contains_newline(it.text.as_str()) && j + 1 < n
            && items[j + 1].is_element && keys_contain(keys, items[j + 1].text.as_str()) {
            true
        } else {
            false
        };
        proof {
            assert(drop_here == (is_match(tail[0], kd) || (tail.len() >= 2 && is_nl_ws(tail[0])
                && is_match(tail[1], kd))));
        }
        if !drop_here {
            let ghost old_out = out@;
            out.push(items[j].clone());
            proof {
                assert(out@ =~= old_out.push(items@[j as int]));
                assert forall|q: int| 0 <= q < out@.len() implies items_view(out@)[q] == (
                items_view(old_out).push(item_view(items@[j as int])))[q] by {
                    assert(items_view(out@)[q] == item_view(out@[q]));
                }
                assert(items_view(out@) =~= items_view(old_out).push(
                    item_view(items@[j as int]),
                ));
                assert(items_view(old_out) + spec_remove(tail, kd) =~= items_view(out@)
                    + spec_remove(tail.drop_first(), kd));
            }
        }
        j = j + 1;
    }
    proof {
        assert(full.skip(n as int) =~= Seq::<(bool, Seq<char>)>::empty());
        assert(items_view(out@) + spec_remove(full.skip(n as int), kd) =~= items_view(out@));
    }
    out
}

/// The same walk, with the located list's children replaced by `items2`;
/// every other node is kept as it stands.
pub open spec fn replace_items_v(ns: Seq<NodeView>, items2: Seq<(bool, Seq<char>)>) -> Seq<
    NodeView,
>
    decreases ns,
{
    if ns.len() == 0 {
        ns
    } else {
        match ns[0] {
            NodeView::List(_) => seq![NodeView::List(items2)] + ns.drop_first(),
            NodeView::Scope(children) => seq![NodeView::Scope(replace_items_v(children, items2))]
                + ns.drop_first(),
            NodeView::Text(_) => seq![ns[0]] + replace_items_v(ns.drop_first(), items2),
        }
    }
}

/// The walk ignores a leading run of plain-text nodes: what it finds at the
/// first container is what it finds overall.
pub proof fn lemma_locate_at(ns: Seq<NodeView>, i: int)
    requires
        0 <= i < ns.len(),
        forall|j: int| 0 <= j < i ==> ns[j] is Text,
    ensures
        ns[i] is List ==> locate_items_v(ns) == Some(ns[i]->List_0),
        ns[i] is Scope ==> locate_items_v(ns) == locate_items_v(ns[i]->Scope_0),
    decreases i,
{
    if i > 0 {
        lemma_locate_at(ns.drop_first(), i - 1);
    }
}

/// A document of plain-text nodes alone holds no target list.
pub proof fn lemma_locate_all_text(ns: Seq<NodeView>)
    requires
        forall|j: int| 0 <= j < ns.len() ==> ns[j] is Text,
    ensures
        locate_items_v(ns) is None,
    decreases ns.len(),
{
    if ns.len() > 0 {
        lemma_locate_all_text(ns.drop_first());
    }
}

/// Replacing the target list's children behind a run of plain-text nodes
/// updates exactly the list node.
pub proof fn lemma_replace_at_list(ns: Seq<NodeView>, i: int, items2: Seq<(bool, Seq<char>)>)
    requires
        0 <= i < ns.len(),
        forall|j: int| 0 <= j < i ==> ns[j] is Text,
        ns[i] is List,
    ensures
        replace_items_v(ns, items2) =~= ns.update(i, NodeView::List(items2)),
    decreases i,
{
    if i == 0 {
        assert(replace_items_v(ns, items2) =~= ns.update(0, NodeView::List(items2)));
    } else {
        lemma_replace_at_list(ns.drop_first(), i - 1, items2);
        assert(replace_items_v(ns, items2) =~= seq![ns[0]] + replace_items_v(
            ns.drop_first(),
            items2,
        ));
        assert(seq![ns[0]] + ns.drop_first().update(i - 1, NodeView::List(items2)) =~= ns.update(
            i,
            NodeView::List(items2),
        ));
    }
}

/// Replacing the target list's children through a scoping construct behind a
/// run of plain-text nodes updates exactly the scoping node.
pub proof fn lemma_replace_at_scope(ns: Seq<NodeView>, i: int, items2: Seq<(bool, Seq<char>)>)
    requires
        0 <= i < ns.len(),
        forall|j: int| 0 <= j < i ==> ns[j] is Text,
        ns[i] is Scope,
    ensures
        replace_items_v(ns, items2) =~= ns.update(
            i,
            NodeView::Scope(replace_items_v(ns[i]->Scope_0, items2)),
        ),
    decreases i,
{
    if i == 0 {
        assert(replace_items_v(ns, items2) =~= ns.update(
            0,
            NodeView::Scope(replace_items_v(ns[0]->Scope_0, items2)),
        ));
    } else {
        lemma_replace_at_scope(ns.drop_first(), i - 1, items2);
        assert(replace_items_v(ns, items2) =~= seq![ns[0]] + replace_items_v(
            ns.drop_first(),
            items2,
        ));
        assert(seq![ns[0]] + ns.drop_first().update(
            i - 1,
            NodeView::Scope(replace_items_v(ns[i]->Scope_0, items2)),
        ) =~= ns.update(i, NodeView::Scope(replace_items_v(ns[i]->Scope_0, items2))));
    }
}

/// An exact copy of a node sequence, by view.
pub fn clone_nodes(ns: &Vec<DocNode>) -> (r: Vec<DocNode>)
    ensures
        nodes_view(r@) == nodes_view(ns@),
        r@.len() == ns@.len(),
    decreases ns,
{
    let n = ns.len();
    let mut out: Vec<DocNode> = Vec::new();
    let mut i: usize = 0;
    while i < n
        invariant
            n == ns@.len(),
            i <= n,
            nodes_view(out@).len() == i,
            forall|j: int| 0 <= j < i ==> nodes_view(out@)[j] == node_view(ns@[j]),
        decreases n - i,
    {
        proof {
            vstd::std_specs::vec::axiom_vec_index_decreases::<DocNode>(*ns, i as int);
            lemma_nodes_view_index(out@);
        }
        let ghost old_out = out@;
        out.push(ns[i].clone());
        proof {
            lemma_nodes_view_push(old_out, out@.last());
            lemma_nodes_view_index(out@);
        }
        i = i + 1;
    }
    proof {
        lemma_nodes_view_index(out@);
        lemma_nodes_view_index(ns@);
        assert(nodes_view(out@) =~= nodes_view(ns@));
    }
    out
}

/// A copy of the node sequence with position `i` replaced by `node`.
fn rebuild_at(ns: &Vec<DocNode>, i: usize, node: DocNode) -> (r: Vec<DocNode>)
    requires
        i < ns@.len(),
    ensures
        nodes_view(r@) == nodes_view(ns@).update(i as int, node_view(node)),
{
    let ghost nv = node_view(node);
    let mut out = clone_nodes(ns);
    let ghost before = out@;
    out.set(i, node);
    proof {
        lemma_nodes_view_index(before);
        lemma_nodes_view_index(out@);
        lemma_nodes_view_index(ns@);
        assert(out@ =~= before.update(i as int, node));
        assert forall|j: int| 0 <= j < out@.len() implies nodes_view(out@)[j] == nodes_view(
            ns@,
        ).update(i as int, nv)[j] by {
            assert(nodes_view(out@)[j] == node_view(out@[j]));
        }
        assert(nodes_view(out@) =~= nodes_view(ns@).update(i as int, nv));
    }
    out
}

/// The outcome of an insert edit over a node sequence: the located list
/// reconciled with the keys and put back in place, or the reason it failed.
pub open spec fn spec_insert_doc(ns: Seq<NodeView>, keys: Seq<Seq<char>>) -> Result<
    Seq<NodeView>,
    FritzError,
> {
    match locate_items_v(ns) {
        None => Err(FritzError::DocumentParse),
        Some(items) => match spec_insert_all(items, keys) {
            None => Err(FritzError::Edit),
            Some(items2) => Ok(replace_items_v(ns, items2)),
        },
    }
}

/// The outcome of a remove edit over a node sequence.
pub open spec fn spec_remove_doc(ns: Seq<NodeView>, keys: Seq<Seq<char>>) -> Result<
    Seq<NodeView>,
    FritzError,
> {
    match locate_items_v(ns) {
        None => Err(FritzError::DocumentParse),
        Some(items) => Ok(replace_items_v(ns, spec_remove(items, keys))),
    }
}

/// Locates the target list's children: scans in order, descends into the
/// first scoping construct, stops at the first list.
pub fn find_list<'a>(ns: &'a Vec<DocNode>) -> (r: Option<&'a Vec<ListItem>>)
    ensures
        r matches Some(items) ==> locate_items_v(nodes_view(ns@)) == Some(items_view(items@)),
        r is None ==> locate_items_v(nodes_view(ns@)) is None,
    decreases ns,
{
    let ghost nv = nodes_view(ns@);
    proof {
        lemma_nodes_view_index(ns@);
    }
    let n = ns.len();
    let mut i: usize = 0;
    while i < n
        invariant
            n == ns@.len(),
            nv == nodes_view(ns@),
            nv.len() == n,
            i <= n,
            forall|j: int| 0 <= j < i ==> nv[j] is Text,
            forall|j: int| 0 <= j < ns@.len() ==> nv[j] == node_view(ns@[j]),
        decreases n - i,
    {
        match &ns[i] {
            DocNode::Text(_) => {
                i = i + 1;
            },
            DocNode::Scope(children) => {
                proof {
                    assert(decreases_to!(ns@[i as int] => ns@[i as int]->Scope_0));
                    vstd::std_specs::vec::axiom_vec_index_decreases::<DocNode>(*ns, i as int);
                    lemma_locate_at(nv, i as int);
                }
                let r = find_list(children);
                proof {
                    assert(nv[i as int]->Scope_0 == nodes_view(children@));
                }
                return r;
            },
            DocNode::List(items) => {
                proof {
                    lemma_locate_at(nv, i as int);
                    assert(nv[i as int]->List_0 == items_view(items@));
                }
                return Some(items);
            },
        }
    }
    proof {
        lemma_locate_all_text(nv);
    }
    None
}

/// Inserts the requested keys into the located list of a node sequence.
pub fn insert_nodes(ns: &Vec<DocNode>, keys: &Vec<String>) -> (r: Result<Vec<DocNode>, FritzError>)
    ensures
        r matches Ok(ns2) ==> spec_insert_doc(nodes_view(ns@), keys.deep_view()) == Ok::<
            Seq<NodeView>,
            FritzError,
        >(nodes_view(ns2@)),
        r matches Err(e) ==> spec_insert_doc(nodes_view(ns@), keys.deep_view()) == Err::<
            Seq<NodeView>,
            FritzError,
        >(e),
    decreases ns,
{
    let ghost nv = nodes_view(ns@);
    let ghost kd = keys.deep_view();
    proof {
        lemma_nodes_view_index(ns@);
    }
    let n = ns.len();
    let mut i: usize = 0;
    while i < n
        invariant
            n == ns@.len(),
            nv == nodes_view(ns@),
            kd == keys.deep_view(),
            nv.len() == n,
            i <= n,
            forall|j: int| 0 <= j < i ==> nv[j] is Text,
            forall|j: int| 0 <= j < ns@.len() ==> nv[j] == node_view(ns@[j]),
        decreases n - i,
    {
        match &ns[i] {
            DocNode::Text(_) => {
                i = i + 1;
            },
            DocNode::Scope(children) => {
                proof {
                    assert(decreases_to!(ns@[i as int] => ns@[i as int]->Scope_0));
                    vstd::std_specs::vec::axiom_vec_index_decreases::<DocNode>(*ns, i as int);
                    lemma_locate_at(nv, i as int);
                    assert(nv[i as int]->Scope_0 == nodes_view(children@));
                }
                match insert_nodes(children, keys) {
                    Ok(edited) => {
                        proof {
                            lemma_replace_at_scope(nv, i as int, spec_insert_all(
                                locate_items_v(nodes_view(children@)).unwrap(),
                                kd,
                            ).unwrap());
                        }
                        let out = rebuild_at(ns, i, DocNode::Scope(edited));
                        return Ok(out);
                    },
                    Err(e) => {
                        return Err(e);
                    },
                }
            },
            DocNode::List(items) => {
                proof {
                    lemma_locate_at(nv, i as int);
                    assert(nv[i as int]->List_0 == items_view(items@));
                }
                match insert_list(items, keys) {
                    None => {
                        return Err(FritzError::Edit);
                    },
                    Some(its2) => {
                        proof {
                            lemma_replace_at_list(nv, i as int, items_view(its2@));
                        }
                        let out = rebuild_at(ns, i, DocNode::List(its2));
                        return Ok(out);
                    },
                }
            },
        }
    }
    proof {
        lemma_locate_all_text(nv);
    }
    Err(FritzError::DocumentParse)
}

/// Removes the requested keys from the located list of a node sequence.
pub fn remove_nodes(ns: &Vec<DocNode>, keys: &Vec<String>) -> (r: Result<Vec<DocNode>, FritzError>)
    ensures
        r matches Ok(ns2) ==> spec_remove_doc(nodes_view(ns@), keys.deep_view()) == Ok::<
            Seq<NodeView>,
            FritzError,
        >(nodes_view(ns2@)),
        r matches Err(e) ==> spec_remove_doc(nodes_view(ns@), keys.deep_view()) == Err::<
            Seq<NodeView>,
            FritzError,
        >(e),
    decreases ns,
{
    let ghost nv = nodes_view(ns@);
    let ghost kd = keys.deep_view();
    proof {
        lemma_nodes_view_index(ns@);
    }
    let n = ns.len();
    let mut i: usize = 0;
    while i < n
        invariant
            n == ns@.len(),
            nv == nodes_view(ns@),
            kd == keys.deep_view(),
            nv.len() == n,
            i <= n,
            forall|j: int| 0 <= j < i ==> nv[j] is Text,
            forall|j: int| 0 <= j < ns@.len() ==> nv[j] == node_view(ns@[j]),
        decreases n - i,
    {
        match &ns[i] {
            DocNode::Text(_) => {
                i = i + 1;
            },
            DocNode::Scope(children) => {
                proof {
                    assert(decreases_to!(ns@[i as int] => ns@[i as int]->Scope_0));
                    vstd::std_specs::vec::axiom_vec_index_decreases::<DocNode>(*ns, i as int);
                    lemma_locate_at(nv, i as int);
                    assert(nv[i as int]->Scope_0 == nodes_view(children@));
                }
                match remove_nodes(children, keys) {
                    Ok(edited) => {
                        proof {
                            lemma_replace_at_scope(nv, i as int, spec_remove(
                                locate_items_v(nodes_view(children@)).unwrap(),
                                kd,
                            ));
                        }
                        let out = rebuild_at(ns, i, DocNode::Scope(edited));
                        return Ok(out);
                    },
                    Err(e) => {
                        return Err(e);
                    },
                }
            },
            DocNode::List(items) => {
                proof {
                    lemma_locate_at(nv, i as int);
                    assert(nv[i as int]->List_0 == items_view(items@));
                }
                let its2 = remove_list(items, keys);
                proof {
                    lemma_replace_at_list(nv, i as int, items_view(its2@));
                }
                let out = rebuild_at(ns, i, DocNode::List(its2));
                return Ok(out);
            },
        }
    }
    proof {
        lemma_locate_all_text(nv);
    }
    Err(FritzError::DocumentParse)
}

/// The texts of the list's element children, in order.
pub open spec fn spec_elements(items: Seq<(bool, Seq<char>)>) -> Seq<Seq<char>>
    decreases items.len(),
{
    if items.len() == 0 {
        Seq::empty()
    } else {
        let rest = spec_elements(items.drop_last());
        if items.last().0 {
            rest.push(items.last().1)
        } else {
            rest
        }
    }
}

/// The texts of the list's element children, in order.
pub fn element_texts(items: &Vec<ListItem>) -> (r: Vec<String>)
    ensures
        r.deep_view() == spec_elements(items_view(items@)),
{
    let ghost full = items_view(items@);
    let n = items.len();
    let mut out: Vec<String> = Vec::new();
    let mut i: usize = 0;
    while i < n
        invariant
            n == items@.len(),
            full == items_view(items@),
            i <= n,
            out.deep_view() =~= spec_elements(full.subrange(0, i as int)),
        decreases n - i,
    {
        let ghost pre = full.subrange(0, i as int);
        let ghost pre1 = full.subrange(0, i + 1 as int);
        proof {
            assert(pre1.drop_last() =~= pre);
            assert(pre1.last() == full[i as int]);
            assert(full[i as int] == item_view(items@[i as int]));
        }
        if items[i].is_element {
            let ghost old_dv = out.deep_view();
            out.push(items[i].text.clone());
            proof {
                assert(out.deep_view() =~= old_dv.push(items@[i as int].text@));
            }
        }
        i = i + 1;
    }
    proof {
        assert(full.subrange(0, n as int) =~= full);
    }
    out
}

/// The inserted whitespace token holds a newline and is no element.
pub proof fn lemma_ws_item_facts()
    ensures
        is_nl_ws(ws_item()),
        !ws_item().0,
{
    reveal_strlit("\n    ");
    assert(ws_item().1[0] == '\n');
    assert(ws_item().1.contains('\n'));
}

/// Removal distributes over concatenation when no removal reaches across
/// the boundary: the right part must not begin with a matching element, or
/// the left part must not end in newline whitespace.
pub proof fn lemma_remove_concat(
    a: Seq<(bool, Seq<char>)>,
    b: Seq<(bool, Seq<char>)>,
    keys: Seq<Seq<char>>,
)
    requires
        b.len() == 0 || !is_match(b[0], keys) || a.len() == 0 || !is_nl_ws(a.last()),
    ensures
        spec_remove(a + b, keys) == spec_remove(a, keys) + spec_remove(b, keys),
    decreases a.len(),
{
    if a.len() == 0 {
        assert(a + b =~= b);
        assert(spec_remove(a, keys) + spec_remove(b, keys) =~= spec_remove(b, keys));
    } else if b.len() == 0 {
        assert(a + b =~= a);
        assert(spec_remove(a, keys) + spec_remove(b, keys) =~= spec_remove(a, keys));
    } else {
        assert((a + b)[0] == a[0]);
        assert((a + b).drop_first() =~= a.drop_first() + b);
        if a.len() >= 2 {
            assert((a + b)[1] == a[1]);
            assert(a.drop_first().last() == a.last());
        } else {
            assert((a + b)[1] == b[0]);
        }
        lemma_remove_concat(a.drop_first(), b, keys);
        if is_match(a[0], keys) {
        } else if (a + b).len() >= 2 && is_nl_ws(a[0]) && is_match((a + b)[1], keys) {
            assert(a.len() >= 2) by {
                if a.len() == 1 {
                    assert(a.last() == a[0]);
                    assert(is_match(b[0], keys) && is_nl_ws(a.last()));
                }
            }
        } else {
            assert(seq![a[0]] + (spec_remove(a.drop_first(), keys) + spec_remove(b, keys)) =~= (
            seq![a[0]] + spec_remove(a.drop_first(), keys)) + spec_remove(b, keys));
        }
    }
}

/// Removing keys that match no element leaves the list as it stands.
pub proof fn lemma_remove_disjoint(items: Seq<(bool, Seq<char>)>, keys: Seq<Seq<char>>)
    requires
        forall|i: int| 0 <= i < items.len() && items[i].0 ==> !keys.contains(items[i].1),
    ensures
        spec_remove(items, keys) == items,
    decreases items.len(),
{
    if items.len() > 0 {
        assert(!is_match(items[0], keys));
        if items.len() >= 2 {
            assert(!is_match(items[1], keys));
        }
        lemma_remove_disjoint(items.drop_first(), keys);
        assert(seq![items[0]] + items.drop_first() =~= items);
    }
}

/// Removing the requested keys after reconciling one of them in restores
/// what removing them from the original list yields.
pub proof fn lemma_remove_after_insert_one(
    items: Seq<(bool, Seq<char>)>,
    k: Seq<char>,
    keys: Seq<Seq<char>>,
)
    requires
        keys.contains(k),
        spec_insert_one(items, k) is Some,
    ensures
        spec_remove(spec_insert_one(items, k).unwrap(), keys) == spec_remove(items, keys),
{
    lemma_ws_item_facts();
    if !has_element(items, k) {
        let ci = close_idx(items).unwrap();
        assert(is_close_at(items, ci));
        let p = insert_pos(items, ci);
        let a = items.subrange(0, p);
        let rest = items.subrange(p, items.len() as int);
        let mid = seq![ws_item(), elem_item(k)];
        let m = spec_insert_one(items, k).unwrap();
        assert(m == a + mid + rest);
        assert(rest[0] == items[p]);
        // No removal reaches across either split boundary: the insertion
        // point sits before a token, or behind a predecessor that is no
        // newline whitespace.
        assert(!is_match(rest[0], keys) || a.len() == 0 || !is_nl_ws(a.last())) by {
            if p == ci {
                if p > 0 {
                    assert(a.last() == items[p - 1]);
                    assert(!(!items[ci - 1].0 && items[ci - 1].1.contains('\n')));
                }
            } else {
                assert(!items[p].0);
            }
        }
        assert(m =~= a + (mid + rest));
        assert((mid + rest)[0] == ws_item());
        lemma_remove_concat(a, mid + rest, keys);
        assert((mid + rest)[1] == elem_item(k));
        assert(is_match(elem_item(k), keys));
        assert((mid + rest).drop_first() =~= seq![elem_item(k)] + rest);
        assert((seq![elem_item(k)] + rest)[0] == elem_item(k));
        assert((seq![elem_item(k)] + rest).drop_first() =~= rest);
        assert(spec_remove(mid + rest, keys) == spec_remove((mid + rest).drop_first(), keys));
        assert(spec_remove((mid + rest).drop_first(), keys) == spec_remove(
            seq![elem_item(k)] + rest,
            keys,
        ));
        assert(spec_remove(seq![elem_item(k)] + rest, keys) == spec_remove(rest, keys));
        lemma_remove_concat(a, rest, keys);
        assert(a + rest =~= items);
    }
}

/// Removing the requested keys after reconciling any of them in restores
/// what removing them from the original list yields.
pub proof fn lemma_remove_after_insert_all(
    items: Seq<(bool, Seq<char>)>,
    ks: Seq<Seq<char>>,
    keys: Seq<Seq<char>>,
)
    requires
        forall|i: int| 0 <= i < ks.len() ==> keys.contains(ks[i]),
        spec_insert_all(items, ks) is Some,
    ensures
        spec_remove(spec_insert_all(items, ks).unwrap(), keys) == spec_remove(items, keys),
    decreases ks.len(),
{
    if ks.len() > 0 {
        assert(keys.contains(ks[0]));
        lemma_remove_after_insert_one(items, ks[0], keys);
        let m1 = spec_insert_one(items, ks[0]).unwrap();
        assert(forall|i: int| 0 <= i < ks.drop_first().len() ==> keys.contains(
            #[trigger] ks.drop_first()[i],
        ));
        lemma_remove_after_insert_all(m1, ks.drop_first(), keys);
    }
}

/// After a replacement, the walk finds exactly the replacement.
pub proof fn lemma_locate_replace(ns: Seq<NodeView>, items2: Seq<(bool, Seq<char>)>)
    requires
        locate_items_v(ns) is Some,
    ensures
        locate_items_v(replace_items_v(ns, items2)) == Some(items2),
    decreases ns,
{
    match ns[0] {
        NodeView::List(_) => {
            assert((seq![NodeView::List(items2)] + ns.drop_first())[0] == NodeView::List(items2));
        },
        NodeView::Scope(cs) => {
            lemma_locate_replace(cs, items2);
            assert((seq![NodeView::Scope(replace_items_v(cs, items2))] + ns.drop_first())[0]
                == NodeView::Scope(replace_items_v(cs, items2)));
        },
        NodeView::Text(_) => {
            lemma_locate_replace(ns.drop_first(), items2);
            assert((seq![ns[0]] + replace_items_v(ns.drop_first(), items2))[0] == ns[0]);
            assert((seq![ns[0]] + replace_items_v(ns.drop_first(), items2)).drop_first()
                =~= replace_items_v(ns.drop_first(), items2));
        },
    }
}

/// Two replacements in a row keep only the second.
pub proof fn lemma_replace_replace(
    ns: Seq<NodeView>,
    x: Seq<(bool, Seq<char>)>,
    y: Seq<(bool, Seq<char>)>,
)
    ensures
        replace_items_v(replace_items_v(ns, x), y) == replace_items_v(ns, y),
    decreases ns,
{
    if ns.len() > 0 {
        match ns[0] {
            NodeView::List(_) => {
                let r1 = seq![NodeView::List(x)] + ns.drop_first();
                assert(r1[0] == NodeView::List(x));
                assert(r1.drop_first() =~= ns.drop_first());
                assert(replace_items_v(r1, y) =~= replace_items_v(ns, y));
            },
            NodeView::Scope(cs) => {
                let r1 = seq![NodeView::Scope(replace_items_v(cs, x))] + ns.drop_first();
                assert(r1[0] == NodeView::Scope(replace_items_v(cs, x)));
                assert(r1.drop_first() =~= ns.drop_first());
                lemma_replace_replace(cs, x, y);
                assert(replace_items_v(r1, y) =~= replace_items_v(ns, y));
            },
            NodeView::Text(_) => {
                let r1 = seq![ns[0]] + replace_items_v(ns.drop_first(), x);
                assert(r1[0] == ns[0]);
                assert(r1.drop_first() =~= replace_items_v(ns.drop_first(), x));
                lemma_replace_replace(ns.drop_first(), x, y);
                assert(replace_items_v(r1, y) =~= replace_items_v(ns, y));
            },
        }
    }
}

/// Replacing the located list with what stands there already changes
/// nothing.
pub proof fn lemma_replace_same(ns: Seq<NodeView>)
    requires
        locate_items_v(ns) is Some,
    ensures
        replace_items_v(ns, locate_items_v(ns).unwrap()) == ns,
    decreases ns,
{
    match ns[0] {
        NodeView::List(items) => {
            assert(seq![NodeView::List(items)] + ns.drop_first() =~= ns);
        },
        NodeView::Scope(cs) => {
            lemma_replace_same(cs);
            assert(seq![NodeView::Scope(replace_items_v(cs, locate_items_v(cs).unwrap()))]
                + ns.drop_first() =~= ns);
        },
        NodeView::Text(_) => {
            lemma_replace_same(ns.drop_first());
            assert(seq![ns[0]] + replace_items_v(
                ns.drop_first(),
                locate_items_v(ns.drop_first()).unwrap(),
            ) =~= ns);
        },
    }
}

/// Keys already present are reconciled to the unchanged list.
pub proof fn lemma_insert_all_present(items: Seq<(bool, Seq<char>)>, ks: Seq<Seq<char>>)
    requires
        forall|i: int| 0 <= i < ks.len() ==> has_element(items, ks[i]),
    ensures
        spec_insert_all(items, ks) == Some(items),
    decreases ks.len(),
{
    if ks.len() > 0 {
        assert(has_element(items, ks[0]));
        assert(forall|i: int| 0 <= i < ks.drop_first().len() ==> has_element(
            items,
            #[trigger] ks.drop_first()[i],
        ));
        lemma_insert_all_present(items, ks.drop_first());
    }
}

/// Idempotence: an add request whose keys are all already present in the
/// located list yields the document unchanged, so its rendered text is
/// identical to the input's.
pub proof fn lemma_add_idempotent(ns: Seq<NodeView>, ks: Seq<Seq<char>>)
    requires
        locate_items_v(ns) is Some,
        forall|i: int| 0 <= i < ks.len() ==> has_element(locate_items_v(ns).unwrap(), ks[i]),
    ensures
        spec_insert_doc(ns, ks) == Ok::<Seq<NodeView>, FritzError>(ns),
{
    lemma_insert_all_present(locate_items_v(ns).unwrap(), ks);
    lemma_replace_same(ns);
}

/// Round trip: inserting keys that match no existing element and then
/// removing the same keys restores the document exactly, node for node, so
/// its rendered text equals the original's.
pub proof fn lemma_add_remove_round_trip(ns: Seq<NodeView>, ks: Seq<Seq<char>>)
    requires
        spec_insert_doc(ns, ks) is Ok,
        forall|i: int|
            0 <= i < locate_items_v(ns).unwrap().len() && locate_items_v(ns).unwrap()[i].0
                ==> !ks.contains(locate_items_v(ns).unwrap()[i].1),
    ensures
        spec_remove_doc(spec_insert_doc(ns, ks).unwrap(), ks) == Ok::<Seq<NodeView>, FritzError>(
            ns,
        ),
{
    let items = locate_items_v(ns).unwrap();
    let m = spec_insert_all(items, ks).unwrap();
    lemma_locate_replace(ns, m);
    lemma_remove_after_insert_all(items, ks, ks);
    lemma_remove_disjoint(items, ks);
    lemma_replace_replace(ns, m, items);
    lemma_replace_same(ns);
}

/// How many elements of the list carry exactly the text `k`.
pub open spec fn elem_count(items: Seq<(bool, Seq<char>)>, k: Seq<char>) -> int
    decreases items.len(),
{
    if items.len() == 0 {
        0
    } else {
        (if items[0].0 && items[0].1 == k {
            1int
        } else {
            0int
        }) + elem_count(items.drop_first(), k)
    }
}

/// Element counts add over concatenation.
pub proof fn lemma_elem_count_concat(
    a: Seq<(bool, Seq<char>)>,
    b: Seq<(bool, Seq<char>)>,
    k: Seq<char>,
)
    ensures
        elem_count(a + b, k) == elem_count(a, k) + elem_count(b, k),
    decreases a.len(),
{
    if a.len() == 0 {
        assert(a + b =~= b);
    } else {
        assert((a + b)[0] == a[0]);
        assert((a + b).drop_first() =~= a.drop_first() + b);
        lemma_elem_count_concat(a.drop_first(), b, k);
    }
}

/// An element with the text is present exactly when the count is positive.
pub proof fn lemma_has_element_count(items: Seq<(bool, Seq<char>)>, k: Seq<char>)
    ensures
        0 <= elem_count(items, k),
        has_element(items, k) <==> elem_count(items, k) > 0,
    decreases items.len(),
{
    if items.len() > 0 {
        lemma_has_element_count(items.drop_first(), k);
        if has_element(items, k) {
            let i = choose|i: int| 0 <= i < items.len() && items[i].0 && items[i].1 == k;
            if i > 0 {
                assert(items.drop_first()[i - 1] == items[i]);
                assert(has_element(items.drop_first(), k));
            }
        }
        if elem_count(items, k) > 0 {
            if !(items[0].0 && items[0].1 == k) {
                let j = choose|j: int|
                    0 <= j < items.drop_first().len() && items.drop_first()[j].0
                        && items.drop_first()[j].1 == k;
                assert(items[j + 1] == items.drop_first()[j]);
            }
        }
    }
}

/// Reconciling one key changes only that key's count, and only when the key
/// was absent.
pub proof fn lemma_insert_one_count(items: Seq<(bool, Seq<char>)>, k: Seq<char>, q: Seq<char>)
    requires
        spec_insert_one(items, k) is Some,
    ensures
        elem_count(spec_insert_one(items, k).unwrap(), q) == elem_count(items, q) + (if !has_element(
            items,
            k,
        ) && k == q {
            1int
        } else {
            0int
        }),
{
    lemma_ws_item_facts();
    if !has_element(items, k) {
        let ci = close_idx(items).unwrap();
        assert(is_close_at(items, ci));
        let p = insert_pos(items, ci);
        let a = items.subrange(0, p);
        let rest = items.subrange(p, items.len() as int);
        let mid = seq![ws_item(), elem_item(k)];
        let m = spec_insert_one(items, k).unwrap();
        assert(m == a + mid + rest);
        lemma_elem_count_concat(a + mid, rest, q);
        lemma_elem_count_concat(a, mid, q);
        lemma_elem_count_concat(a, rest, q);
        assert(a + rest =~= items);
        assert(mid.drop_first() =~= seq![elem_item(k)]);
        assert(seq![elem_item(k)].drop_first() =~= Seq::<(bool, Seq<char>)>::empty());
        assert(elem_count(Seq::<(bool, Seq<char>)>::empty(), q) == 0);
        assert(elem_count(seq![elem_item(k)], q) == (if k == q {
            1int
        } else {
            0int
        }));
        assert(elem_count(mid, q) == elem_count(seq![elem_item(k)], q));
    }
}

/// Dedup: reconciling a request inserts each key that was absent exactly
/// once, however often the request names it.
pub proof fn lemma_insert_all_count(
    items: Seq<(bool, Seq<char>)>,
    ks: Seq<Seq<char>>,
    k: Seq<char>,
)
    requires
        spec_insert_all(items, ks) is Some,
        ks.contains(k),
        !has_element(items, k),
    ensures
        elem_count(spec_insert_all(items, ks).unwrap(), k) == 1,
    decreases ks.len(),
{
    lemma_has_element_count(items, k);
    let m1 = spec_insert_one(items, ks[0]).unwrap();
    lemma_insert_one_count(items, ks[0], k);
    lemma_has_element_count(m1, k);
    if ks[0] == k {
        assert(elem_count(m1, k) == 1);
        lemma_insert_all_count_present(m1, ks.drop_first(), k);
    } else {
        assert(elem_count(m1, k) == 0);
        let i = choose|i: int| 0 <= i < ks.len() && ks[i] == k;
        assert(ks.drop_first()[i - 1] == k);
        assert(ks.drop_first().contains(k));
        lemma_insert_all_count(m1, ks.drop_first(), k);
    }
}

/// A key already present is never inserted again.
pub proof fn lemma_insert_all_count_present(
    items: Seq<(bool, Seq<char>)>,
    ks: Seq<Seq<char>>,
    k: Seq<char>,
)
    requires
        spec_insert_all(items, ks) is Some,
        has_element(items, k),
    ensures
        elem_count(spec_insert_all(items, ks).unwrap(), k) == elem_count(items, k),
    decreases ks.len(),
{
    if ks.len() > 0 {
        let m1 = spec_insert_one(items, ks[0]).unwrap();
        lemma_insert_one_count(items, ks[0], k);
        lemma_has_element_count(items, k);
        lemma_has_element_count(m1, k);
        lemma_insert_all_count_present(m1, ks.drop_first(), k);
    }
}

/// The located list holds an element with exactly the text `key`.
pub open spec fn spec_doc_has_element(ns: Seq<NodeView>, key: Seq<char>) -> bool {
    match locate_items_v(ns) {
        Some(items) => has_element(items, key),
        None => false,
    }
}

/// The exact text of the list's children, concatenated.
pub fn render_items_exec(items: &Vec<ListItem>) -> (r: String)
    ensures
        r@ == render_items_v(items_view(items@)),
{
    let ghost full = items_view(items@);
    let n = items.len();
    let mut s = String::new();
    proof {
        assert(full.skip(0) =~= full);
    }
    let mut i: usize = 0;
    while i < n
        invariant
            n == items@.len(),
            full == items_view(items@),
            i <= n,
            render_items_v(full) == s@ + render_items_v(full.skip(i as int)),
        decreases n - i,
    {
        let ghost tail = full.skip(i as int);
        proof {
            assert(tail[0] == full[i as int]);
            assert(full[i as int] == item_view(items@[i as int]));
            assert(tail.drop_first() =~= full.skip(i + 1));
        }
        s.append(items[i].text.as_str());
        proof {
            assert(s@ + render_items_v(full.skip(i + 1)) =~= render_items_v(full));
        }
        i = i + 1;
    }
    proof {
        assert(full.skip(n as int) =~= Seq::<(bool, Seq<char>)>::empty());
        assert(s@ + render_items_v(full.skip(n as int)) =~= s@);
    }
    s
}

/// The exact text of a node sequence, concatenated in order.
pub fn render_nodes_exec(ns: &Vec<DocNode>) -> (r: String)
    ensures
        r@ == render_nodes_v(nodes_view(ns@)),
    decreases ns,
{
    let ghost nv = nodes_view(ns@);
    proof {
        lemma_nodes_view_index(ns@);
        assert(nv.skip(0) =~= nv);
    }
    let n = ns.len();
    let mut s = String::new();
    let mut i: usize = 0;
    while i < n
        invariant
            n == ns@.len(),
            nv == nodes_view(ns@),
            nv.len() == n,
            forall|j: int| 0 <= j < ns@.len() ==> nv[j] == node_view(ns@[j]),
            i <= n,
            render_nodes_v(nv) == s@ + render_nodes_v(nv.skip(i as int)),
        decreases n - i,
    {
        let ghost tail = nv.skip(i as int);
        proof {
            assert(tail[0] == nv[i as int]);
            assert(tail.drop_first() =~= nv.skip(i + 1));
        }
        match &ns[i] {
            DocNode::Text(t) => {
                proof {
                    assert(nv[i as int] == NodeView::Text(t@));
                    assert(render_node_v(tail[0]) == t@);
                }
                s.append(t.as_str());
            },
            DocNode::List(items) => {
                let part = render_items_exec(items);
                proof {
                    assert(nv[i as int] == NodeView::List(items_view(items@)));
                    assert(render_node_v(tail[0]) == part@);
                }
                s.append(part.as_str());
            },
            DocNode::Scope(children) => {
                proof {
                    assert(decreases_to!(ns@[i as int] => ns@[i as int]->Scope_0));
                    vstd::std_specs::vec::axiom_vec_index_decreases::<DocNode>(*ns, i as int);
                }
                let part = render_nodes_exec(children);
                proof {
                    assert(nv[i as int] == NodeView::Scope(nodes_view(children@)));
                    assert(render_node_v(tail[0]) == part@);
                }
                s.append(part.as_str());
            },
        }
        proof {
            assert(render_nodes_v(tail) == render_node_v(tail[0]) + render_nodes_v(
                tail.drop_first(),
            ));
            assert(s@ + render_nodes_v(nv.skip(i + 1)) =~= render_nodes_v(nv));
        }
        i = i + 1;
    }
    proof {
        assert(nv.skip(n as int) =~= Seq::<NodeView>::empty());
        assert(s@ + render_nodes_v(nv.skip(n as int)) =~= s@);
    }
    s
}

impl ConfigDocument {
    /// The document's full text, exactly as it will be written back.
    pub fn render(&self) -> (r: String)
        ensures
            r@ == self.spec_render(),
    {
        let mut s = self.prefix.clone();
        let middle = render_nodes_exec(&self.nodes);
        s.append(middle.as_str());
        s.append(self.suffix.as_str());
        s
    }

    /// Whether the located list holds an element with exactly the text `key`;
    /// false as well when no list can be located.
    pub fn has_list_element(&self, key: &str) -> (r: bool)
        ensures
            r == spec_doc_has_element(self.view_nodes(), key@),
    {
        match find_list(&self.nodes) {
            Some(items) => list_has_element(items, key),
            None => false,
        }
    }

    /// Whether `key` occurs anywhere in the document's text.
    pub fn contains_text(&self, key: &str) -> (r: bool)
        ensures
            r == text::is_substring(key@, self.spec_render()),
    {
        let rendered = self.render();
        text::contains_sub(rendered.as_str(), key)
    }

    /// A document with the requested keys reconciled into its list: each key
    /// not already present is inserted before the list's closing delimiter,
    /// preceded by a newline and four spaces; everything outside the list's
    /// children is unchanged.
    pub fn insert(&self, keys: &Vec<String>) -> (r: Result<ConfigDocument, FritzError>)
        ensures
            r matches Ok(d2) ==> d2.prefix@ == self.prefix@ && d2.suffix@ == self.suffix@
                && spec_insert_doc(self.view_nodes(), keys.deep_view()) == Ok::<
                Seq<NodeView>,
                FritzError,
            >(d2.view_nodes()),
            r matches Err(e) ==> spec_insert_doc(self.view_nodes(), keys.deep_view()) == Err::<
                Seq<NodeView>,
                FritzError,
            >(e),
    {
        match insert_nodes(&self.nodes, keys) {
            Ok(ns2) => Ok(
                ConfigDocument {
                    prefix: self.prefix.clone(),
                    nodes: ns2,
                    suffix: self.suffix.clone(),
                },
            ),
            Err(e) => Err(e),
        }
    }

    /// A document with every element matching a requested key removed from
    /// its list, each together with its preceding newline whitespace;
    /// everything outside the list's children is unchanged.
    pub fn remove(&self, keys: &Vec<String>) -> (r: Result<ConfigDocument, FritzError>)
        ensures
            r matches Ok(d2) ==> d2.prefix@ == self.prefix@ && d2.suffix@ == self.suffix@
                && spec_remove_doc(self.view_nodes(), keys.deep_view()) == Ok::<
                Seq<NodeView>,
                FritzError,
            >(d2.view_nodes()),
            r matches Err(e) ==> spec_remove_doc(self.view_nodes(), keys.deep_view()) == Err::<
                Seq<NodeView>,
                FritzError,
            >(e),
    {
        match remove_nodes(&self.nodes, keys) {
            Ok(ns2) => Ok(
                ConfigDocument {
                    prefix: self.prefix.clone(),
                    nodes: ns2,
                    suffix: self.suffix.clone(),
                },
            ),
            Err(e) => Err(e),
        }
    }
}

} // verus!
