//! The static command tree: branch vertices keyed by mnemonic, terminal
//! leaves holding a handler, and path resolution with the SCPI matching
//! rules (case-insensitive, short-form abbreviation, default leaves).

use vstd::prelude::*;
use crate::ascii::{spec_is_lower_alpha, spec_to_upper, spec_upper_seq, is_lower_alpha, to_upper};

verus! {

/// A terminal command vertex: a fixed mnemonic, the default flag that marks
/// the implicit child of its parent branch, and the handler serving it.
pub struct Leaf<H> {
    pub name: Vec<u8>,
    pub default: bool,
    pub handler: H,
}

/// A branching command vertex: a fixed mnemonic and its children.
pub struct Branch<H> {
    pub name: Vec<u8>,
    pub children: Vec<Node<H>>,
}

/// A vertex of the command tree.
pub enum Node<H> {
    Leaf(Leaf<H>),
    Branch(Branch<H>),
}

/// The mnemonic of a vertex.
pub open spec fn spec_node_name<H>(n: Node<H>) -> Seq<u8> {
    match n {
        Node::Leaf(l) => l.name@,
        Node::Branch(b) => b.name@,
    }
}

/// The index of the first lowercase letter of `name` at or after `i`. The
/// prefix before it is the mandatory short form of the mnemonic.
pub open spec fn spec_short_len_from(name: Seq<u8>, i: int) -> int
    decreases name.len() - i,
{
    if 0 <= i && i < name.len() && !spec_is_lower_alpha(name[i]) {
        spec_short_len_from(name, i + 1)
    } else {
        i
    }
}

/// The length of the mandatory short form of a mnemonic: its leading run of
/// bytes that are not lowercase letters.
pub open spec fn spec_short_len(name: Seq<u8>) -> int {
    spec_short_len_from(name, 0)
}

/// The SCPI matching rule: a token matches a mnemonic when, case folded, it
/// is a prefix of the mnemonic's long form covering at least the mandatory
/// short form.
pub open spec fn spec_mnemonic_matches(name: Seq<u8>, tok: Seq<u8>) -> bool {
    tok.len() > 0 && spec_short_len(name) <= tok.len() && tok.len() <= name.len()
        && forall|i: int|
        0 <= i < tok.len() ==> spec_to_upper(#[trigger] tok[i]) == spec_to_upper(name[i])
}

/// The vertex reached from `n` by the child indices in `path`, if the
/// indices stay in range.
pub open spec fn spec_node_at<H>(n: Node<H>, path: Seq<int>) -> Option<Node<H>>
    decreases path.len(),
{
    if path.len() == 0 {
        Some(n)
    } else {
        match n {
            Node::Leaf(_) => None,
            Node::Branch(b) => {
                if 0 <= path[0] < b.children@.len() {
                    spec_node_at(b.children@[path[0]], path.drop_first())
                } else {
                    None
                }
            },
        }
    }
}

/// The first child of `cs` at or after `i` whose mnemonic matches `tok`.
pub open spec fn spec_find_child<H>(cs: Seq<Node<H>>, tok: Seq<u8>, i: int) -> Option<int>
    decreases cs.len() - i,
{
    if i < 0 || i >= cs.len() {
        None
    } else if spec_mnemonic_matches(spec_node_name(cs[i]), tok) {
        Some(i)
    } else {
        spec_find_child(cs, tok, i + 1)
    }
}

/// The first child of `cs` at or after `i` that is a leaf marked default.
pub open spec fn spec_find_default_leaf<H>(cs: Seq<Node<H>>, i: int) -> Option<int>
    decreases cs.len() - i,
{
    if i < 0 || i >= cs.len() {
        None
    } else if cs[i] is Leaf && cs[i]->Leaf_0.default {
        Some(i)
    } else {
        spec_find_default_leaf(cs, i + 1)
    }
}

/// Path resolution from the vertex at `pos`, consuming the mnemonics of
/// `toks` from index `ti`. The result is the index path of the resolved
/// leaf: a token must match a child of the current branch; a path that ends
/// at a branch resolves to its default leaf, if one exists; anything else is
/// an undefined header.
pub open spec fn spec_walk<H>(root: Node<H>, pos: Seq<int>, toks: Seq<Seq<u8>>, ti: int) -> Option<
    Seq<int>,
>
    decreases toks.len() - ti,
{
    if ti < 0 || ti > toks.len() {
        None
    } else {
        match spec_node_at(root, pos) {
            None => None,
            Some(cur) => match cur {
                Node::Leaf(_) => if ti == toks.len() {
                    Some(pos)
                } else {
                    None
                },
                Node::Branch(b) => {
                    if ti == toks.len() {
                        match spec_find_default_leaf(b.children@, 0) {
                            Some(j) => Some(pos.push(j)),
                            None => None,
                        }
                    } else {
                        match spec_find_child(b.children@, toks[ti], 0) {
                            Some(j) => spec_walk(root, pos.push(j), toks, ti + 1),
                            None => None,
                        }
                    }
                },
            },
        }
    }
}

/// Whether a vertex is a leaf marked default.
pub open spec fn spec_is_default_leaf<H>(n: Node<H>) -> bool {
    n is Leaf && n->Leaf_0.default
}

/// The structural invariant of the command tree: every mnemonic is
/// non-empty, child mnemonics are unique within a branch under case
/// folding, and a branch has at most one default leaf.
pub open spec fn spec_node_wf<H>(n: Node<H>) -> bool
    decreases n,
{
    match n {
        Node::Leaf(l) => l.name@.len() > 0,
        Node::Branch(b) => {
            &&& b.name@.len() > 0
            &&& forall|i: int|
                0 <= i < b.children@.len() ==> spec_node_wf(#[trigger] b.children@[i])
            &&& forall|i: int, j: int|
                0 <= i < j < b.children@.len() ==> spec_upper_seq(
                    spec_node_name(#[trigger] b.children@[i]),
                ) != spec_upper_seq(spec_node_name(#[trigger] b.children@[j]))
            &&& forall|i: int, j: int|
                0 <= i < j < b.children@.len() && spec_is_default_leaf(#[trigger] b.children@[i])
                    ==> !spec_is_default_leaf(#[trigger] b.children@[j])
        },
    }
}

/// Stepping down into child `j` extends the index path by one.
pub proof fn lemma_node_at_push<H>(n: Node<H>, path: Seq<int>, j: int)
    requires
        spec_node_at(n, path) is Some,
        spec_node_at(n, path)->0 is Branch,
        0 <= j < spec_node_at(n, path)->0->Branch_0.children@.len(),
    ensures
        spec_node_at(n, path.push(j)) == Some(
            spec_node_at(n, path)->0->Branch_0.children@[j],
        ),
    decreases path.len(),
{
    if path.len() == 0 {
        let b = n->Branch_0;
        assert(path.push(j)[0] == j);
        assert(path.push(j).drop_first() =~= Seq::<int>::empty());
        assert(spec_node_at(n, path.push(j)) == spec_node_at(
            b.children@[j],
            path.push(j).drop_first(),
        ));
        assert(spec_node_at(b.children@[j], Seq::<int>::empty()) == Some(b.children@[j]));
    } else {
        let b0 = n->Branch_0;
        assert(path.push(j)[0] == path[0]);
        assert(path.push(j).drop_first() =~= path.drop_first().push(j));
        lemma_node_at_push(b0.children@[path[0]], path.drop_first(), j);
    }
}

/// The length of the mandatory short form never exceeds the mnemonic.
pub proof fn lemma_short_len_bounds(name: Seq<u8>, i: int)
    requires
        0 <= i <= name.len(),
    ensures
        i <= spec_short_len_from(name, i) <= name.len(),
    decreases name.len() - i,
{
    if i < name.len() && !spec_is_lower_alpha(name[i]) {
        lemma_short_len_bounds(name, i + 1);
    }
}

/// Lookup is case-insensitive: a token matches a mnemonic exactly when its
/// uppercase folding does.
pub proof fn lemma_match_case_insensitive(name: Seq<u8>, tok: Seq<u8>)
    ensures
        spec_mnemonic_matches(name, tok) == spec_mnemonic_matches(name, spec_upper_seq(tok)),
{
    let up = spec_upper_seq(tok);
    assert(up.len() == tok.len());
    assert forall|i: int| 0 <= i < up.len() implies spec_to_upper(#[trigger] up[i])
        == spec_to_upper(tok[i]) by {
        assert(up[i] == spec_to_upper(tok[i]));
        crate::ascii::lemma_upper_idempotent(tok[i]);
    }
    if spec_mnemonic_matches(name, tok) {
        assert forall|i: int| 0 <= i < up.len() implies spec_to_upper(#[trigger] up[i])
            == spec_to_upper(name[i]) by {
            assert(spec_to_upper(tok[i]) == spec_to_upper(name[i]));
        }
        assert(spec_mnemonic_matches(name, up));
    }
    if spec_mnemonic_matches(name, up) {
        assert forall|i: int| 0 <= i < tok.len() implies spec_to_upper(#[trigger] tok[i])
            == spec_to_upper(name[i]) by {
            assert(spec_to_upper(up[i]) == spec_to_upper(name[i]));
        }
        assert(spec_mnemonic_matches(name, tok));
    }
}

/// The documented short form of a mnemonic matches it.
pub proof fn lemma_match_short_form(name: Seq<u8>)
    requires
        spec_short_len(name) >= 1,
    ensures
        spec_mnemonic_matches(name, name.take(spec_short_len(name))),
{
    lemma_short_len_bounds(name, 0);
}

/// The full long form of a mnemonic matches it.
pub proof fn lemma_match_long_form(name: Seq<u8>)
    requires
        name.len() > 0,
    ensures
        spec_mnemonic_matches(name, name),
{
    lemma_short_len_bounds(name, 0);
}

/// Child search is case-insensitive.
pub proof fn lemma_find_child_ci<H>(cs: Seq<Node<H>>, tok: Seq<u8>, i: int)
    ensures
        spec_find_child(cs, tok, i) == spec_find_child(cs, spec_upper_seq(tok), i),
    decreases cs.len() - i,
{
    if 0 <= i && i < cs.len() {
        lemma_match_case_insensitive(spec_node_name(cs[i]), tok);
        lemma_find_child_ci(cs, tok, i + 1);
    }
}

/// Lookup of a whole path is case-insensitive: resolving a path and
/// resolving its uppercase folding reach the same leaf, or fail alike.
pub proof fn lemma_walk_case_insensitive<H>(
    root: Node<H>,
    pos: Seq<int>,
    toks: Seq<Seq<u8>>,
    ti: int,
)
    ensures
        spec_walk(root, pos, toks, ti) == spec_walk(
            root,
            pos,
            toks.map_values(|t: Seq<u8>| spec_upper_seq(t)),
            ti,
        ),
    decreases toks.len() - ti,
{
    let up = toks.map_values(|t: Seq<u8>| spec_upper_seq(t));
    assert(up.len() == toks.len());
    if 0 <= ti && ti <= toks.len() {
        match spec_node_at(root, pos) {
            None => {},
            Some(cur) => match cur {
                Node::Leaf(_) => {},
                Node::Branch(b) => {
                    if ti < toks.len() {
                        assert(up[ti] == spec_upper_seq(toks[ti]));
                        lemma_find_child_ci(b.children@, toks[ti], 0);
                        match spec_find_child(b.children@, toks[ti], 0) {
                            Some(j) => {
                                lemma_walk_case_insensitive(root, pos.push(j), toks, ti + 1);
                            },
                            None => {},
                        }
                    }
                },
            },
        }
    }
}

/// The mandatory short form of a mnemonic.
pub fn short_len(name: &Vec<u8>) -> (r: usize)
    ensures
        r as int == spec_short_len(name@),
        r <= name@.len(),
{
    proof {
        lemma_short_len_bounds(name@, 0);
    }
    short_len_from(name, 0)
}

fn short_len_from(name: &Vec<u8>, i: usize) -> (r: usize)
    requires
        i <= name@.len(),
    ensures
        r as int == spec_short_len_from(name@, i as int),
    decreases name@.len() - i,
{
    if i < name.len() && !is_lower_alpha(name[i]) {
        short_len_from(name, i + 1)
    } else {
        i
    }
}

/// Whether `tok` matches the mnemonic `name` under the SCPI rule.
pub fn mnemonic_matches(name: &Vec<u8>, tok: &Vec<u8>) -> (r: bool)
    ensures
        r == spec_mnemonic_matches(name@, tok@),
{
    let short = short_len(name);
    if tok.len() == 0 || tok.len() < short || tok.len() > name.len() {
        return false;
    }
    let mut i: usize = 0;
    while i < tok.len()
        invariant
            i <= tok@.len(),
            tok@.len() <= name@.len(),
            forall|m: int|
                0 <= m < i ==> spec_to_upper(#[trigger] tok@[m]) == spec_to_upper(name@[m]),
        decreases tok@.len() - i,
    {
        if to_upper(tok[i]) != to_upper(name[i]) {
            return false;
        }
        i += 1;
    }
    true
}

/// Whether two mnemonics are equal under case folding.
fn upper_eq(a: &Vec<u8>, b: &Vec<u8>) -> (r: bool)
    ensures
        r == (spec_upper_seq(a@) == spec_upper_seq(b@)),
{
    if a.len() != b.len() {
        proof {
            assert(spec_upper_seq(a@).len() != spec_upper_seq(b@).len());
        }
        return false;
    }
    let mut i: usize = 0;
    while i < a.len()
        invariant
            i <= a@.len(),
            a@.len() == b@.len(),
            forall|m: int|
                0 <= m < i ==> spec_to_upper(#[trigger] a@[m]) == spec_to_upper(b@[m]),
        decreases a@.len() - i,
    {
        if to_upper(a[i]) != to_upper(b[i]) {
            proof {
                assert(spec_upper_seq(a@)[i as int] != spec_upper_seq(b@)[i as int]);
            }
            return false;
        }
        i += 1;
    }
    proof {
        assert(spec_upper_seq(a@) =~= spec_upper_seq(b@));
    }
    true
}

/// Whether `n` is a leaf marked default.
fn is_default_leaf<H>(n: &Node<H>) -> (r: bool)
    ensures
        r == spec_is_default_leaf(*n),
{
    match n {
        Node::Leaf(l) => l.default,
        Node::Branch(_) => false,
    }
}

/// Validates the structural invariant of the tree: run once where the
/// static tree is assembled, before any dispatch.
pub fn check_node<H>(n: &Node<H>) -> (r: bool)
    ensures
        r == spec_node_wf(*n),
    decreases *n,
{
    let b = match n {
        Node::Leaf(l) => {
            return l.name.len() > 0;
        },
        Node::Branch(b) => b,
    };
    if b.name.len() == 0 {
        return false;
    }
    let mut i: usize = 0;
    while i < b.children.len()
        invariant
            i <= b.children@.len(),
            n is Branch,
            n->Branch_0 == *b,
            forall|m: int| 0 <= m < i ==> spec_node_wf(#[trigger] b.children@[m]),
        decreases b.children@.len() - i,
    {
        proof {
            assert(*n == Node::Branch(*b));
            assert(decreases_to!(*n => n->Branch_0.children@[i as int]));
        }
        if !check_node(&b.children[i]) {
            proof {
                assert(!spec_node_wf(*n)) by {
                    if spec_node_wf(*n) {
                        assert(spec_node_wf(b.children@[i as int]));
                    }
                }
            }
            return false;
        }
        i += 1;
    }
    let mut j: usize = 0;
    while j < b.children.len()
        invariant
            j <= b.children@.len(),
            n is Branch,
            n->Branch_0 == *b,
            forall|p: int, q: int|
                0 <= p < q < j ==> spec_upper_seq(spec_node_name(#[trigger] b.children@[p]))
                    != spec_upper_seq(spec_node_name(#[trigger] b.children@[q])),
        decreases b.children@.len() - j,
    {
        let mut i: usize = 0;
        while i < j
            invariant
                i <= j < b.children@.len(),
                n is Branch,
                n->Branch_0 == *b,
                forall|p: int, q: int|
                    0 <= p < q < j ==> spec_upper_seq(spec_node_name(#[trigger] b.children@[p]))
                        != spec_upper_seq(spec_node_name(#[trigger] b.children@[q])),
                forall|p: int|
                    0 <= p < i ==> spec_upper_seq(spec_node_name(#[trigger] b.children@[p]))
                        != spec_upper_seq(spec_node_name(b.children@[j as int])),
            decreases j - i,
        {
            if upper_eq(node_name_ref(&b.children[i]), node_name_ref(&b.children[j])) {
                proof {
                    assert(spec_upper_seq(spec_node_name(b.children@[i as int]))
                        == spec_upper_seq(spec_node_name(b.children@[j as int])));
                    assert(!spec_node_wf(*n)) by {
                        if spec_node_wf(*n) {
                            assert(spec_upper_seq(spec_node_name(b.children@[i as int]))
                                != spec_upper_seq(spec_node_name(b.children@[j as int])));
                        }
                    }
                }
                return false;
            }
            i += 1;
        }
        j += 1;
    }
    let mut seen = false;
    let mut k: usize = 0;
    while k < b.children.len()
        invariant
            k <= b.children@.len(),
            n is Branch,
            n->Branch_0 == *b,
            seen == exists|m: int|
                0 <= m < k && spec_is_default_leaf(#[trigger] b.children@[m]),
            forall|p: int, q: int|
                0 <= p < q < k && spec_is_default_leaf(#[trigger] b.children@[p])
                    ==> !spec_is_default_leaf(#[trigger] b.children@[q]),
            forall|m: int| 0 <= m < b.children@.len() ==> spec_node_wf(#[trigger] b.children@[m]),
            forall|p: int, q: int|
                0 <= p < q < b.children@.len() ==> spec_upper_seq(
                    spec_node_name(#[trigger] b.children@[p]),
                ) != spec_upper_seq(spec_node_name(#[trigger] b.children@[q])),
        decreases b.children@.len() - k,
    {
        if is_default_leaf(&b.children[k]) {
            if seen {
                proof {
                    let m = choose|m: int|
                        0 <= m < k && spec_is_default_leaf(#[trigger] b.children@[m]);
                    assert(spec_is_default_leaf(b.children@[m]));
                    assert(spec_is_default_leaf(b.children@[k as int]));
                    assert(!spec_node_wf(*n)) by {
                        if spec_node_wf(*n) {
                            assert(spec_is_default_leaf(b.children@[m]) ==> !spec_is_default_leaf(
                                b.children@[k as int],
                            ));
                        }
                    }
                }
                return false;
            }
            seen = true;
            proof {
                assert(spec_is_default_leaf(b.children@[k as int]));
            }
        }
        k += 1;
    }
    true
}

fn node_name_ref<'a, H>(n: &'a Node<H>) -> (r: &'a Vec<u8>)
    ensures
        r@ == spec_node_name(*n),
{
    match n {
        Node::Leaf(l) => &l.name,
        Node::Branch(b) => &b.name,
    }
}

fn find_child<H>(cs: &Vec<Node<H>>, tok: &Vec<u8>) -> (r: Option<usize>)
    ensures
        match r {
            Some(j) => spec_find_child(cs@, tok@, 0) == Some(j as int) && j < cs@.len(),
            None => spec_find_child(cs@, tok@, 0) is None,
        },
{
    let mut i: usize = 0;
    while i < cs.len()
        invariant
            i <= cs@.len(),
            spec_find_child(cs@, tok@, 0) == spec_find_child(cs@, tok@, i as int),
        decreases cs@.len() - i,
    {
        if mnemonic_matches(node_name_ref(&cs[i]), tok) {
            return Some(i);
        }
        i += 1;
    }
    None
}

fn find_default_leaf<H>(cs: &Vec<Node<H>>) -> (r: Option<usize>)
    ensures
        match r {
            Some(j) => spec_find_default_leaf(cs@, 0) == Some(j as int) && j < cs@.len()
                && cs@[j as int] is Leaf,
            None => spec_find_default_leaf(cs@, 0) is None,
        },
{
    let mut i: usize = 0;
    while i < cs.len()
        invariant
            i <= cs@.len(),
            spec_find_default_leaf(cs@, 0) == spec_find_default_leaf(cs@, i as int),
        decreases cs@.len() - i,
    {
        match &cs[i] {
            Node::Leaf(l) => {
                if l.default {
                    return Some(i);
                }
            },
            Node::Branch(_) => {},
        }
        i += 1;
    }
    None
}

/// The index path of `v` as a mathematical sequence.
pub open spec fn view_path(s: Seq<usize>) -> Seq<int> {
    s.map_values(|x: usize| x as int)
}

/// A resolved leaf: its index path, the leaf itself, and its parent branch.
pub struct WalkHit<'a, H> {
    pub pos: Vec<usize>,
    pub leaf: &'a Node<H>,
    pub parent: &'a Node<H>,
}

/// Resolution of `toks[ti..]` starting at the vertex `cur` (which stands at
/// index path `pos` under `root`).
pub fn walk_exec<'a, H>(
    root: &'a Node<H>,
    cur: &'a Node<H>,
    pos: Vec<usize>,
    toks: &Vec<Vec<u8>>,
    ti: usize,
) -> (r: Option<WalkHit<'a, H>>)
    requires
        spec_node_at(*root, view_path(pos@)) == Some(*cur),
        ti < toks@.len(),
    ensures
        match r {
            Some(hit) => {
                &&& spec_walk(*root, view_path(pos@), crate::ascii::views(toks@), ti as int)
                    == Some(view_path(hit.pos@))
                &&& spec_node_at(*root, view_path(hit.pos@)) == Some(*hit.leaf)
                &&& hit.leaf is Leaf
                &&& hit.pos@.len() > 0
                &&& spec_node_at(*root, view_path(hit.pos@).drop_last()) == Some(*hit.parent)
                &&& hit.parent is Branch
            },
            None => spec_walk(*root, view_path(pos@), crate::ascii::views(toks@), ti as int)
                is None,
        },
    decreases toks@.len() - ti,
{
    let b = match cur {
        Node::Leaf(_) => {
            return None;
        },
        Node::Branch(b) => b,
    };
    let tok = &toks[ti];
    proof {
        assert(crate::ascii::views(toks@)[ti as int] == toks@[ti as int]@);
    }
    let j = match find_child(&b.children, tok) {
        None => {
            return None;
        },
        Some(j) => j,
    };
    let child = &b.children[j];
    proof {
        lemma_node_at_push(*root, view_path(pos@), j as int);
        assert(view_path(pos@.push(j)) =~= view_path(pos@).push(j as int));
    }
    let mut pos2 = pos;
    pos2.push(j);
    match child {
        Node::Leaf(_) => {
            if ti == toks.len() - 1 {
                proof {
                    assert(view_path(pos2@) =~= view_path(pos@).push(j as int));
                    assert(view_path(pos@).push(j as int).drop_last() =~= view_path(pos@));
                    assert(spec_walk(
                        *root,
                        view_path(pos@).push(j as int),
                        crate::ascii::views(toks@),
                        ti + 1,
                    ) == Some(view_path(pos@).push(j as int)));
                }
                Some(WalkHit { pos: pos2, leaf: child, parent: cur })
            } else {
                None
            }
        },
        Node::Branch(b2) => {
            if ti == toks.len() - 1 {
                match find_default_leaf(&b2.children) {
                    Some(k) => {
                        proof {
                            lemma_node_at_push(*root, view_path(pos2@), k as int);
                            assert(view_path(pos2@.push(k)) =~= view_path(pos2@).push(k as int));
                        }
                        let leaf = &b2.children[k];
                        let mut pos3 = pos2;
                        pos3.push(k);
                        proof {
                            assert(view_path(pos3@).drop_last() =~= view_path(pos2@));
                        }
                        Some(WalkHit { pos: pos3, leaf, parent: child })
                    },
                    None => None,
                }
            } else {
                walk_exec(root, child, pos2, toks, ti + 1)
            }
        },
    }
}

} // verus!
