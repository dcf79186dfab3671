//! A plain model of the scene-graph subtrees the editor walks: nodes with
//! an optional display name and children, and lookup of a node by name.
//!
//! Not finding a named substructure is an absent optional feature, not an
//! error: the search says exactly whether the name occurs, and which node
//! is found first.

use vstd::prelude::*;
use crate::text::str_eq;

verus! {

/// One node of a scene subtree.
#[derive(Debug)]
pub struct SceneNode {
    pub name: Option<String>,
    pub children: Vec<SceneNode>,
}

/// The subtree rooted here holds a node with the given name.
pub open spec fn scene_contains(node: SceneNode, target: Seq<char>) -> bool
    decreases node,
{
    (match node.name {
        Some(n) => n@ == target,
        None => false,
    }) || exists|i: int|
        0 <= i < node.children@.len() && scene_contains(#[trigger] node.children@[i], target)
}

/// The node a child-index path leads to.
pub open spec fn node_at(node: SceneNode, path: Seq<usize>) -> Option<SceneNode>
    decreases path.len(),
{
    if path.len() == 0 {
        Some(node)
    } else if (path[0] as int) < node.children@.len() {
        node_at(node.children@[path[0] as int], path.skip(1))
    } else {
        None
    }
}

/// The path to the first node carrying the name, walking depth-first in
/// preorder: a node before its children, children in order.
pub open spec fn first_match(node: SceneNode, target: Seq<char>) -> Option<Seq<usize>>
    decreases node, 1int, 0int,
{
    if (match node.name {
        Some(n) => n@ == target,
        None => false,
    }) {
        Some(Seq::empty())
    } else {
        first_match_from(node, 0, target)
    }
}

/// The first match found in the children from index `k` on.
pub open spec fn first_match_from(node: SceneNode, k: int, target: Seq<char>) -> Option<
    Seq<usize>,
>
    decreases node, 0int, node.children@.len() - k,
{
    if k < 0 || k >= node.children@.len() {
        None
    } else {
        match first_match(node.children@[k], target) {
            Some(p) => Some(seq![k as usize] + p),
            None => first_match_from(node, k + 1, target),
        }
    }
}

/// Finds a node by display name: the result is the child-index path of the
/// first match in depth-first preorder, and the search fails exactly when
/// no node in the subtree carries the name.
pub fn find_node_by_name(node: &SceneNode, target: &str) -> (r: Option<Vec<usize>>)
    ensures
        r matches Some(path) ==> (node_at(*node, path@) matches Some(found) && found.name
            matches Some(n) && n@ == target@),
        match first_match(*node, target@) {
            Some(p) => (r matches Some(path) && path@ == p),
            None => r is None,
        },
        (r is None) <==> !scene_contains(*node, target@),
    decreases *node,
{
    let name_is_target = match &node.name {
        Some(n) => str_eq(n.as_str(), target),
        None => false,
    };
    proof {
        assert(name_is_target == (match node.name {
            Some(n) => n@ == target@,
            None => false,
        }));
    }
    if name_is_target {
        let path: Vec<usize> = Vec::new();
        proof {
            assert(node_at(*node, path@) == Some(*node));
            assert(first_match(*node, target@) == Some(Seq::<usize>::empty()));
            assert(path@ =~= Seq::<usize>::empty());
        }
        return Some(path);
    }
    let n = node.children.len();
    let mut k: usize = 0;
    while k < n
        invariant
            n == node.children@.len(),
            k <= n,
            !(match node.name {
                Some(nm) => nm@ == target@,
                None => false,
            }),
            forall|j: int| 0 <= j < k ==> !scene_contains(#[trigger] node.children@[j], target@),
            first_match_from(*node, 0, target@) == first_match_from(*node, k as int, target@),
        decreases n - k,
    {
        match find_node_by_name(&node.children[k], target) {
            Some(mut path) => {
                let ghost tail = path@;
                path.insert(0, k);
                proof {
                    assert(path@[0] == k);
                    assert(path@.skip(1) =~= tail);
                    assert(node_at(*node, path@) == node_at(node.children@[k as int], tail));
                    assert(scene_contains(*node, target@)) by {
                        assert(scene_contains(node.children@[k as int], target@)) by {
                            if !scene_contains(node.children@[k as int], target@) {
                            }
                        }
                    }
                    assert(first_match(node.children@[k as int], target@) == Some(tail));
                    assert(first_match_from(*node, k as int, target@) == Some(
                        seq![k as usize] + tail,
                    ));
                    assert(first_match(*node, target@) == first_match_from(*node, 0, target@));
                    assert(path@ =~= seq![k as usize] + tail);
                }
                return Some(path);
            },
            None => {
                proof {
                    assert(first_match(node.children@[k as int], target@) is None);
                    assert(first_match_from(*node, k as int, target@) == first_match_from(
                        *node,
                        k + 1,
                        target@,
                    ));
                }
            },
        }
        k += 1;
    }
    proof {
        if scene_contains(*node, target@) {
            let i = choose|i: int|
                0 <= i < node.children@.len() && scene_contains(
                    #[trigger] node.children@[i],
                    target@,
                );
        }
        assert(first_match_from(*node, n as int, target@) is None);
        assert(first_match(*node, target@) == first_match_from(*node, 0, target@));
    }
    None
}

} // verus!
