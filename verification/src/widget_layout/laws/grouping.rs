//! Grouping fields by path loses none: the rows of the field tree hold each
//! field's token exactly once.
use crate::widget_layout::groups::{
    child_pos, flatten_spec, group_fields_spec, group_state, lemma_child_pos_from, new_node,
    path_labels, pieces, tree_insert, used_path, GroupSpec, NodeSpec,
};
use crate::widget_layout::parts::PartSpec;
use vstd::multiset::Multiset;
use vstd::prelude::*;

verus! {

broadcast use vstd::seq_lib::group_to_multiset_ensures;

/// The tokens of the rows, in row order.
pub open spec fn row_tokens(rows: Seq<GroupSpec>) -> Seq<Seq<char>>
    decreases rows.len(),
{
    if rows.len() == 0 {
        Seq::empty()
    } else {
        row_tokens(rows.drop_last()) + rows.last().tokens
    }
}

/// The names of the `Field` parts, in document order.
pub open spec fn field_names(parts: Seq<PartSpec>) -> Seq<Seq<char>>
    decreases parts.len(),
{
    if parts.len() == 0 {
        Seq::empty()
    } else {
        field_names(parts.drop_last()) + match parts.last() {
            PartSpec::Field { name, path: _ } => seq![name],
            _ => Seq::empty(),
        }
    }
}

/// The tokens held anywhere in a forest.
pub open spec fn forest_tokens(cs: Seq<NodeSpec>) -> Multiset<Seq<char>>
    decreases cs,
{
    if cs.len() == 0 {
        Multiset::empty()
    } else {
        forest_tokens(cs.drop_last()).add(cs.last().tokens.to_multiset()).add(
            forest_tokens(cs.last().children),
        )
    }
}

/// The tokens held at a node or below it.
pub open spec fn node_tokens(n: NodeSpec) -> Multiset<Seq<char>> {
    n.tokens.to_multiset().add(forest_tokens(n.children))
}

/// Every field path that holds anything names at least one segment.
pub open spec fn paths_named(parts: Seq<PartSpec>) -> bool {
    forall|k: int|
        0 <= k < parts.len() ==> match #[trigger] parts[k] {
            PartSpec::Field { name: _, path } => match used_path(path) {
                Some(t) => pieces(t, 0, 0).len() > 0,
                None => true,
            },
            _ => true,
        }
}

pub proof fn lemma_empty_multiset(s: Seq<Seq<char>>)
    requires
        s.len() == 0,
    ensures
        s.to_multiset() == Multiset::<Seq<char>>::empty(),
{
    broadcast use vstd::multiset::group_multiset_axioms;

    assert(s.to_multiset().len() == 0);
    assert(s.to_multiset() =~= Multiset::<Seq<char>>::empty()) by {
        assert forall|x: Seq<char>| s.to_multiset().count(x) == 0 by {
            if s.to_multiset().count(x) > 0 {
                assert(s.to_multiset().contains(x));
            }
        }
    }
}

/// Row tokens of joined rows are joined.
pub proof fn lemma_row_tokens_add(a: Seq<GroupSpec>, b: Seq<GroupSpec>)
    ensures
        row_tokens(a + b) == row_tokens(a) + row_tokens(b),
    decreases b.len(),
{
    if b.len() == 0 {
        assert(a + b =~= a);
        assert(row_tokens(a) + row_tokens(b) =~= row_tokens(a));
    } else {
        assert((a + b).drop_last() =~= a + b.drop_last());
        lemma_row_tokens_add(a, b.drop_last());
        assert(row_tokens(a + b) =~= row_tokens(a) + row_tokens(b));
    }
}

/// The rows of a forest hold exactly the forest's tokens.
pub proof fn lemma_flatten_tokens(cs: Seq<NodeSpec>, depth: int)
    ensures
        row_tokens(flatten_spec(cs, depth)).to_multiset() == forest_tokens(cs),
    decreases cs,
{
    broadcast use vstd::multiset::group_multiset_axioms;

    if cs.len() == 0 {
        lemma_empty_multiset(row_tokens(flatten_spec(cs, depth)));
    } else {
        let init = cs.drop_last();
        let last = cs.last();
        lemma_flatten_tokens(init, depth);
        lemma_flatten_tokens(last.children, depth + 1);
        let a = flatten_spec(init, depth);
        let row = seq![GroupSpec { depth, label: last.label, tokens: last.tokens }];
        let c = flatten_spec(last.children, depth + 1);
        lemma_row_tokens_add(a + row, c);
        lemma_row_tokens_add(a, row);
        assert(row.drop_last() =~= Seq::<GroupSpec>::empty());
        assert(row_tokens(Seq::<GroupSpec>::empty()) =~= Seq::<Seq<char>>::empty());
        assert(row.last().tokens == last.tokens);
        assert(row_tokens(row) =~= last.tokens);
        vstd::seq_lib::lemma_multiset_commutative(row_tokens(a) + last.tokens, row_tokens(c));
        vstd::seq_lib::lemma_multiset_commutative(row_tokens(a), last.tokens);
    }
}

/// Adding a node to a forest adds its tokens.
pub proof fn lemma_forest_push(cs: Seq<NodeSpec>, n: NodeSpec)
    ensures
        forest_tokens(cs.push(n)) == forest_tokens(cs).add(node_tokens(n)),
{
    broadcast use vstd::multiset::group_multiset_axioms;

    assert(cs.push(n).drop_last() =~= cs);
    assert(forest_tokens(cs.push(n)) =~= forest_tokens(cs).add(node_tokens(n)));
}

/// Replacing a node of a forest trades its tokens for the new node's.
pub proof fn lemma_forest_update(cs: Seq<NodeSpec>, i: int, n: NodeSpec)
    requires
        0 <= i < cs.len(),
    ensures
        forest_tokens(cs.update(i, n)).add(node_tokens(cs[i])) == forest_tokens(cs).add(
            node_tokens(n),
        ),
    decreases cs.len(),
{
    broadcast use vstd::multiset::group_multiset_axioms;

    let init = cs.drop_last();
    let u = cs.update(i, n);
    if i == cs.len() - 1 {
        assert(u =~= init.push(n));
        assert(cs =~= init.push(cs.last()));
        lemma_forest_push(init, n);
        lemma_forest_push(init, cs.last());
        assert(cs[i] == cs.last());
        assert(forest_tokens(u).add(node_tokens(cs[i])) =~= forest_tokens(cs).add(node_tokens(n)));
    } else {
        lemma_forest_update(init, i, n);
        assert(u =~= init.update(i, n).push(cs.last()));
        assert(cs =~= init.push(cs.last()));
        lemma_forest_push(init.update(i, n), cs.last());
        lemma_forest_push(init, cs.last());
        assert(init[i] == cs[i]);
        let fu = forest_tokens(init.update(i, n));
        let fi = forest_tokens(init);
        let nl = node_tokens(cs.last());
        assert forall|x: Seq<char>| #[trigger]
            forest_tokens(u).add(node_tokens(cs[i])).count(x) == forest_tokens(cs).add(
                node_tokens(n),
            ).count(x) by {
            assert(fu.add(node_tokens(cs[i])).count(x) == fi.add(node_tokens(n)).count(x));
        }
        assert(forest_tokens(u).add(node_tokens(cs[i])) =~= forest_tokens(cs).add(node_tokens(n)));
    }
}

/// Inserting a token into the tree adds exactly that token.
pub proof fn lemma_insert_tokens(n: NodeSpec, labels: Seq<Seq<char>>, token: Seq<char>)
    ensures
        node_tokens(tree_insert(n, labels, token)) == node_tokens(n).insert(token),
        labels.len() > 0 ==> tree_insert(n, labels, token).tokens == n.tokens,
    decreases labels.len(),
{
    broadcast use vstd::multiset::group_multiset_axioms;

    if labels.len() == 0 {
        assert(node_tokens(tree_insert(n, labels, token)) =~= node_tokens(n).insert(token));
    } else {
        let i = child_pos(n.children, labels[0]);
        lemma_child_pos_from(n.children, labels[0], 0);
        let child = if 0 <= i < n.children.len() {
            n.children[i]
        } else {
            new_node(labels[0])
        };
        lemma_insert_tokens(child, labels.drop_first(), token);
        let grown = tree_insert(child, labels.drop_first(), token);
        let t = tree_insert(n, labels, token);
        let f = forest_tokens(n.children);
        if 0 <= i < n.children.len() {
            lemma_forest_update(n.children, i, grown);
            let f2 = forest_tokens(t.children);
            assert forall|x: Seq<char>| f2.count(x) == f.insert(token).count(x) by {
                assert(f2.add(node_tokens(child)).count(x) == f.add(node_tokens(grown)).count(x));
            }
            assert(f2 =~= f.insert(token));
        } else {
            lemma_forest_push(n.children, grown);
            lemma_empty_multiset(child.tokens);
            lemma_empty_multiset(Seq::<Seq<char>>::empty());
            assert(forest_tokens(child.children) =~= Multiset::<Seq<char>>::empty());
            assert(forest_tokens(t.children) =~= f.insert(token));
        }
        assert(node_tokens(t) =~= node_tokens(n).insert(token));
    }
}

/// The tree and the pathless bucket together hold every field's token; the
/// tree's root holds none itself.
pub proof fn lemma_group_state_tokens(parts: Seq<PartSpec>)
    requires
        paths_named(parts),
    ensures
        ({
            let (root, pathless) = group_state(parts);
            &&& root.tokens.len() == 0
            &&& forest_tokens(root.children).add(pathless.to_multiset()) == field_names(
                parts,
            ).to_multiset()
        }),
    decreases parts.len(),
{
    broadcast use vstd::multiset::group_multiset_axioms;

    if parts.len() == 0 {
        lemma_empty_multiset(field_names(parts));
        lemma_empty_multiset(Seq::<Seq<char>>::empty());
        assert(forest_tokens(Seq::<NodeSpec>::empty()) == Multiset::<Seq<char>>::empty());
        assert(Multiset::<Seq<char>>::empty().add(Multiset::empty()) =~= Multiset::empty());
    } else {
        let init = parts.drop_last();
        assert forall|k: int| 0 <= k < init.len() implies match #[trigger] init[k] {
            PartSpec::Field { name: _, path } => match used_path(path) {
                Some(t) => pieces(t, 0, 0).len() > 0,
                None => true,
            },
            _ => true,
        } by {
            assert(init[k] == parts[k]);
        }
        lemma_group_state_tokens(init);
        let (root, pathless) = group_state(init);
        let names = field_names(init);
        assert(parts.last() == parts[parts.len() - 1]);
        match parts.last() {
            PartSpec::Field { name, path } => {
                assert(field_names(parts) == names + seq![name]);
                assert(names + seq![name] =~= names.push(name));
                match used_path(path) {
                    Some(t) => {
                        let labels = path_labels(t);
                        assert(labels.len() == pieces(t, 0, 0).len());
                        lemma_insert_tokens(root, labels, name);
                        let r2 = tree_insert(root, labels, name);
                        lemma_empty_multiset(root.tokens);
                        lemma_empty_multiset(r2.tokens);
                        assert(node_tokens(r2) =~= forest_tokens(r2.children));
                        assert(node_tokens(root) =~= forest_tokens(root.children));
                        assert(forest_tokens(r2.children) =~= forest_tokens(root.children).insert(
                            name,
                        ));
                        assert(forest_tokens(r2.children).add(pathless.to_multiset())
                            =~= field_names(parts).to_multiset());
                    },
                    None => {
                        assert(forest_tokens(root.children).add(pathless.push(name).to_multiset())
                            =~= field_names(parts).to_multiset());
                    },
                }
            },
            _ => {
                assert(field_names(parts) =~= names);
            },
        }
    }
}

/// Grouping loses no field and invents none: the tokens of the field tree's
/// rows are the `Field` parts' names, each as often as it occurs, wherever
/// every field path that holds anything names a segment. (A path of only
/// dots, such as `.`, sends its token to the tree's unlisted root.)
pub proof fn law_grouping_keeps_every_field(parts: Seq<PartSpec>)
    requires
        paths_named(parts),
    ensures
        row_tokens(group_fields_spec(parts)).to_multiset() == field_names(parts).to_multiset(),
{
    broadcast use vstd::multiset::group_multiset_axioms;

    lemma_group_state_tokens(parts);
    let (root, pathless) = group_state(parts);
    let a = flatten_spec(root.children, 0);
    lemma_flatten_tokens(root.children, 0);
    let bucket = if pathless.len() > 0 {
        seq![GroupSpec { depth: 0, label: Seq::empty(), tokens: pathless }]
    } else {
        Seq::empty()
    };
    lemma_row_tokens_add(a, bucket);
    vstd::seq_lib::lemma_multiset_commutative(row_tokens(a), row_tokens(bucket));
    if pathless.len() > 0 {
        assert(bucket.drop_last() =~= Seq::<GroupSpec>::empty());
        assert(row_tokens(Seq::<GroupSpec>::empty()) =~= Seq::<Seq<char>>::empty());
        assert(bucket.last().tokens == pathless);
        assert(row_tokens(bucket) =~= pathless);
    } else {
        lemma_empty_multiset(row_tokens(bucket));
        lemma_empty_multiset(pathless);
        assert(forest_tokens(root.children).add(Multiset::empty()) =~= forest_tokens(
            root.children,
        ));
    }
}

} // verus!
