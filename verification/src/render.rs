//! Rendering a tree as text. The drawing is ptree's: the tree is handed to
//! its builder node by node, and what it writes is taken as it comes.

use vstd::prelude::*;
use crate::error::ShowError;
use crate::tree::{forest_view, lemma_forest_view, listing, Tree, TreeNode};
use crate::walk::{
    all_named, build_tree, shown_entries, store_tree, title_of, walk_view, DirectoryEntry,
};

verus! {

/// ptree's builder of trees of strings.
#[verifier::external_type_specification]
#[verifier::external_body]
pub struct ExTreeBuilder(ptree::TreeBuilder);

/// ptree's tree of strings.
#[verifier::external_type_specification]
#[verifier::external_body]
pub struct ExStringItem(ptree::item::StringItem);

/// The nodes that a builder holds: each with its depth below the root, which
/// is at 0, a node before what is below it, siblings in the order they got in.
pub uninterp spec fn builder_listing(builder: ptree::TreeBuilder) -> Seq<(nat, Seq<char>)>;

/// How many children of a builder are begun and not ended.
pub uninterp spec fn builder_level(builder: ptree::TreeBuilder) -> nat;

/// The nodes of a tree of strings, listed as those of a builder are.
pub uninterp spec fn item_listing(item: ptree::item::StringItem) -> Seq<(nat, Seq<char>)>;

/// The bytes that ptree draws for the tree with this listing. Built without
/// its optional features, as it is here, ptree draws every tree in its default
/// configuration and without styling.
pub uninterp spec fn rendered(listing: Seq<(nat, Seq<char>)>) -> Seq<u8>;

/// `ptree::TreeBuilder::new`: a builder that holds the root alone, with no
/// child begun.
#[verifier::external_body]
fn builder_new(text: String) -> (builder: ptree::TreeBuilder)
    ensures
        builder_listing(builder) == seq![(0nat, text@)],
        builder_level(builder) == 0,
{
    ptree::TreeBuilder::new(text)
}

/// `ptree::TreeBuilder::begin_child`: a new last child below the node that was
/// begun last and not ended (the root where there is none); it is then the
/// node begun last. The builder counts the begun children in a `u32`.
#[verifier::external_body]
fn builder_begin_child(builder: &mut ptree::TreeBuilder, text: String)
    requires
        builder_level(*old(builder)) < u32::MAX,
    ensures
        builder_listing(*final(builder)) == builder_listing(*old(builder)).push(
            (builder_level(*old(builder)) + 1, text@),
        ),
        builder_level(*final(builder)) == builder_level(*old(builder)) + 1,
{
    builder.begin_child(text);
}

/// `ptree::TreeBuilder::end_child`: ends the child begun last; the nodes stay.
#[verifier::external_body]
fn builder_end_child(builder: &mut ptree::TreeBuilder)
    requires
        builder_level(*old(builder)) > 0,
    ensures
        builder_listing(*final(builder)) == builder_listing(*old(builder)),
        builder_level(*final(builder)) == builder_level(*old(builder)) - 1,
{
    builder.end_child();
}

/// `ptree::TreeBuilder::add_empty_child`: a child begun and ended at once.
#[verifier::external_body]
fn builder_add_empty_child(builder: &mut ptree::TreeBuilder, text: String)
    requires
        builder_level(*old(builder)) < u32::MAX,
    ensures
        builder_listing(*final(builder)) == builder_listing(*old(builder)).push(
            (builder_level(*old(builder)) + 1, text@),
        ),
        builder_level(*final(builder)) == builder_level(*old(builder)),
{
    builder.add_empty_child(text);
}

/// `ptree::TreeBuilder::build`: a copy of the tree that the builder holds; the
/// builder stays as it is.
#[verifier::external_body]
fn builder_build(builder: &mut ptree::TreeBuilder) -> (item: ptree::item::StringItem)
    ensures
        item_listing(item) == builder_listing(*old(builder)),
        builder_listing(*final(builder)) == builder_listing(*old(builder)),
        builder_level(*final(builder)) == builder_level(*old(builder)),
{
    builder.build()
}

/// `ptree::output::write_tree` into a buffer: the bytes are those that ptree
/// draws for the item's nodes. The writing succeeds: ptree hands on only the
/// errors of its writer, and a buffer in memory takes every write.
#[verifier::external_body]
fn write_item(item: &ptree::item::StringItem) -> (out: Option<Vec<u8>>)
    ensures
        out is Some,
        out->0@ == rendered(item_listing(*item)),
{
    let mut buffer: Vec<u8> = Vec::new();
    match ptree::output::write_tree(item, &mut buffer) {
        Ok(()) => Some(buffer),
        Err(_) => None,
    }
}

/// The nodes of a tree with their depths, the root at 0.
pub open spec fn tree_listing(tree: Tree) -> Seq<(nat, Seq<char>)> {
    seq![(0nat, tree.name)] + listing(tree.children, 1)
}

/// Every node of `forest`, hung below a node at depth `level`, is at a depth
/// that the builder can count.
pub open spec fn fits(forest: Seq<Tree>, level: nat) -> bool
    decreases forest,
{
    forest.len() == 0 || (level < u32::MAX && fits(forest[0].children, level + 1) && fits(
        forest.drop_first(),
        level,
    ))
}

/// Hands the nodes to the builder as children of the node begun last, and
/// says whether all of them fit.
fn emit_forest(builder: &mut ptree::TreeBuilder, nodes: &Vec<TreeNode>, level: u32) -> (ok: bool)
    requires
        builder_level(*old(builder)) == level,
    ensures
        ok == fits(forest_view(nodes@), level as nat),
        ok ==> builder_level(*final(builder)) == level,
        ok ==> builder_listing(*final(builder)) == builder_listing(*old(builder)) + listing(
            forest_view(nodes@),
            level as nat + 1,
        ),
    decreases nodes,
{
    let ghost forest = forest_view(nodes@);
    let ghost before = builder_listing(*builder);
    let mut i: usize = 0;
    proof {
        lemma_forest_view(nodes@);
        assert(forest.skip(0) =~= forest);
    }
    while i < nodes.len()
        invariant
            i <= nodes.len(),
            forest == forest_view(nodes@),
            forest.len() == nodes.len(),
            forall|k: int| 0 <= k < nodes.len() ==> #[trigger] forest[k] == nodes[k]@,
            builder_level(*builder) == level,
            fits(forest, level as nat) == fits(forest.skip(i as int), level as nat),
            builder_listing(*builder) + listing(forest.skip(i as int), level as nat + 1) == before
                + listing(forest, level as nat + 1),
        decreases nodes.len() - i,
    {
        let node: &TreeNode = &nodes[i];
        let ghost at = builder_listing(*builder);
        proof {
            assert(forest.skip(i as int)[0] == node@);
            assert(forest.skip(i as int).drop_first() =~= forest.skip(i + 1));
        }
        if level == u32::MAX {
            return false;
        }
        if node.children.len() == 0 {
            builder_add_empty_child(builder, node.name.clone());
            proof {
                assert(node@.children =~= Seq::<Tree>::empty());
            }
        } else {
            builder_begin_child(builder, node.name.clone());
            let ok: bool = emit_forest(builder, &node.children, level + 1);
            if !ok {
                return false;
            }
            builder_end_child(builder);
        }
        proof {
            assert(fits(node@.children, level as nat + 1));
            assert(fits(forest.skip(i as int), level as nat) == fits(
                forest.skip(i + 1),
                level as nat,
            ));
            assert(builder_listing(*builder) == at.push((level as nat + 1, node@.name)) + listing(
                node@.children,
                level as nat + 2,
            ));
            assert(builder_listing(*builder) + listing(forest.skip(i + 1), level as nat + 1) =~= at
                + listing(forest.skip(i as int), level as nat + 1));
        }
        i += 1;
    }
    proof {
        assert(builder_listing(*builder) + listing(forest.skip(i as int), level as nat + 1)
            =~= builder_listing(*builder));
    }
    true
}

/// The tree as ptree draws it. A tree with a node deeper than the builder can
/// count is not handed over and fails as too deep; of any other tree the
/// whole is handed over, and the result is what ptree wrote.
pub fn render_tree(tree: &TreeNode) -> (res: Result<Vec<u8>, ShowError>)
    ensures
        fits(tree@.children, 0) ==> (res matches Ok(bytes) && bytes@ == rendered(
            tree_listing(tree@),
        )),
        !fits(tree@.children, 0) ==> res == Err::<Vec<u8>, ShowError>(ShowError::TreeTooDeep),
{
    let mut builder = builder_new(tree.name.clone());
    if !emit_forest(&mut builder, &tree.children, 0) {
        return Err(ShowError::TreeTooDeep);
    }
    let item = builder_build(&mut builder);
    drawn(write_item(&item))
}

/// What becomes of what the writing gave: the bytes, or the failure to write.
pub fn drawn(written: Option<Vec<u8>>) -> (res: Result<Vec<u8>, ShowError>)
    ensures
        written is None ==> res == Err::<Vec<u8>, ShowError>(ShowError::OutputFailed),
        written is Some ==> res == Ok::<Vec<u8>, ShowError>(written->0),
{
    match written {
        None => Err(ShowError::OutputFailed),
        Some(bytes) => Ok(bytes),
    }
}

/// The drawing of the store's tree from a walk of it: the shown entries
/// under the title, nested by their depths, every level in name order. Fails
/// where the name of a shown entry is not text or has no base name, and where
/// the tree is too deep to be drawn.
pub fn print_tree(walk: &Vec<Option<DirectoryEntry>>, input: Option<String>) -> (res: Result<
    Vec<u8>,
    ShowError,
>)
    ensures
        !all_named(shown_entries(walk_view(walk@))) ==> res == Err::<Vec<u8>, ShowError>(
            ShowError::InvalidEntryName,
        ),
        all_named(shown_entries(walk_view(walk@))) && !fits(
            store_tree(title_of(input), walk_view(walk@)).children,
            0,
        ) ==> res == Err::<Vec<u8>, ShowError>(ShowError::TreeTooDeep),
        all_named(shown_entries(walk_view(walk@))) && fits(
            store_tree(title_of(input), walk_view(walk@)).children,
            0,
        ) ==> (res matches Ok(bytes) && bytes@ == rendered(
            tree_listing(store_tree(title_of(input), walk_view(walk@))),
        )),
{
    match build_tree(walk, input) {
        Err(e) => Err(e),
        Ok(root) => render_tree(&root),
    }
}

} // verus!
