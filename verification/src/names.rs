//! The name index: a prefix tree from the name of a point to its index.

use crate::osm::OSM;
use crate::tags::TagSet;
use radix_trie::Trie;
use vstd::prelude::*;

verus! {

/// `radix_trie::Trie`: a prefix tree. The library carries it and sees nothing inside
/// it; what it holds is named by `trie_entries`.
#[verifier::external_type_specification]
#[verifier::external_body]
#[verifier::reject_recursive_types(K)]
#[verifier::reject_recursive_types(V)]
pub struct ExTrie<K, V>(Trie<K, V>);

/// The entries of a prefix tree: the value that it holds for each key. Nothing is
/// proved of it; the three functions below say what the calls into `radix_trie` do
/// to it.
pub uninterp spec fn trie_entries(trie: Trie<String, usize>) -> Map<Seq<char>, usize>;

/// `radix_trie::Trie::new`: the new tree holds no entry.
#[verifier::external_body]
fn trie_new() -> (trie: Trie<String, usize>)
    ensures
        (trie_entries(trie) == Map::<Seq<char>, usize>::empty()),
{
    Trie::new()
}

/// `radix_trie::Trie::insert`: afterwards the tree holds `value` for `key` and is
/// otherwise as before; the result is the value that it held for `key` before, if any.
#[verifier::external_body]
fn trie_insert(trie: &mut Trie<String, usize>, key: String, value: usize) -> (before: Option<usize>)
    ensures
        trie_entries(*final(trie)) == trie_entries(*old(trie)).insert(key@, value),
        before == if trie_entries(*old(trie)).contains_key(key@) {
            Some(trie_entries(*old(trie))[key@])
        } else {
            None
        },
{
    trie.insert(key, value)
}

/// `radix_trie::Trie::get`: the value that the tree holds for `key`, if any.
#[verifier::external_body]
fn trie_get(trie: &Trie<String, usize>, key: &str) -> (value: Option<usize>)
    ensures
        value == if trie_entries(*trie).contains_key(key@) {
            Some(trie_entries(*trie)[key@])
        } else {
            None
        },
{
    trie.get(key).copied()
}

/// The name of a point: the value of its tag "name", if it has one.
pub open spec fn name_of(tags: TagSet) -> Option<Seq<char>> {
    if tags@.contains_key("name"@) {
        Some(tags@["name"@])
    } else {
        None
    }
}

/// The index of each name among the points with these tag sets. Where several points
/// have one name, the last of them has it.
pub open spec fn name_index(tags: Seq<TagSet>) -> Map<Seq<char>, usize>
    decreases tags.len(),
{
    if tags.len() == 0 {
        Map::empty()
    } else {
        let rest = name_index(tags.drop_last());
        match name_of(tags.last()) {
            Some(name) => rest.insert(name, (tags.len() - 1) as usize),
            None => rest,
        }
    }
}

/// A name leads to the last point that has it: if point `i` has the name and no later
/// point does, the index holds `i` for the name.
pub proof fn lemma_name_index_finds(tags: Seq<TagSet>, i: int, name: Seq<char>)
    requires
        0 <= i < tags.len(),
        name_of(tags[i]) == Some(name),
        forall|j: int| i < j < tags.len() ==> name_of(#[trigger] tags[j]) != Some(name),
    ensures
        name_index(tags).contains_key(name),
        name_index(tags)[name] == i as usize,
    decreases tags.len(),
{
    if i < tags.len() - 1 {
        let rest = tags.drop_last();
        assert(rest[i] == tags[i]);
        assert forall|j: int| i < j < rest.len() implies name_of(#[trigger] rest[j]) != Some(
            name,
        ) by {
            assert(rest[j] == tags[j]);
        }
        lemma_name_index_finds(rest, i, name);
        assert(name_of(tags[tags.len() - 1]) != Some(name));
    }
}

/// Every index that the name index holds is the index of a point.
pub proof fn lemma_name_index_in_range(tags: Seq<TagSet>, name: Seq<char>)
    requires
        name_index(tags).contains_key(name),
        tags.len() <= usize::MAX,
    ensures
        name_index(tags)[name] < tags.len(),
        name_of(tags[name_index(tags)[name] as int]) == Some(name),
    decreases tags.len(),
{
    if tags.len() > 0 {
        let rest = tags.drop_last();
        if name_of(tags.last()) != Some(name) {
            lemma_name_index_in_range(rest, name);
            assert(rest[name_index(rest)[name] as int] == tags[name_index(rest)[name] as int]);
        }
    }
}

/// The index that the tree holds for `name`, if any.
pub fn lookup(trie: &Trie<String, usize>, name: &str) -> (index: Option<usize>)
    ensures
        index == if trie_entries(*trie).contains_key(name@) {
            Some(trie_entries(*trie)[name@])
        } else {
            None
        },
{
    trie_get(trie, name)
}

impl OSM {
    /// Builds the name index. The tag "name" of each point that has one is taken out
    /// of the point and becomes a key of the tree, with the index of the point as its
    /// value; a later point with the same name replaces an earlier one. Afterwards
    /// no point has a tag "name".
    pub fn trie(&mut self) -> (trie: Trie<String, usize>)
        requires
            old(self).wf(),
        ensures
            final(self).wf(),
            trie_entries(trie) == name_index(old(self).tag_sets()),
            final(self).points() == old(self).points(),
            final(self).way_seqs() == old(self).way_seqs(),
            final(self).bounds() == old(self).bounds(),
            final(self).tag_sets().len() == old(self).tag_sets().len(),
            forall|i: int|
                0 <= i < final(self).tag_sets().len() ==> (#[trigger] final(self).tag_sets()[i])@
                    == old(self).tag_sets()[i]@.remove("name"@),
    {
        let n = self.node_count();
        let ghost tags = self.tag_sets();
        let ghost points = self.points();
        let ghost ways = self.way_seqs();
        let ghost bounds = self.bounds();
        let mut trie = trie_new();
        let mut i: usize = 0;
        while i < n
            invariant
                i <= n,
                n == tags.len(),
                self.wf(),
                self.points() == points,
                self.way_seqs() == ways,
                self.bounds() == bounds,
                self.tag_sets().len() == n,
                forall|j: int|
                    0 <= j < i ==> (#[trigger] self.tag_sets()[j])@ == tags[j]@.remove("name"@),
                forall|j: int| i <= j < n ==> #[trigger] self.tag_sets()[j] == tags[j],
                trie_entries(trie) == name_index(tags.take(i as int)),
            decreases n - i,
        {
            proof {
                assert(tags.take(i + 1).drop_last() =~= tags.take(i as int));
                assert(tags.take(i + 1).last() == tags[i as int]);
                assert(self.tag_sets()[i as int] == tags[i as int]);
            }
            match self.take_name(i) {
                Some(name) => {
                    trie_insert(&mut trie, name, i);
                },
                None => {},
            }
            i += 1;
        }
        proof {
            assert(tags.take(n as int) =~= tags);
        }
        trie
    }
}

} // verus!
