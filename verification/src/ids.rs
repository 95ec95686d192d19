//! The table from exported object identifiers to object names, and the rule
//! that names an exported object after the place of its file.
use vstd::prelude::*;
use vstd::hash_map::StringHashMap;
use vstd::string::*;
use crate::text::str_eq;

verus! {

/// Object names keyed by the identifier (`EntityId`) of the exported object.
pub struct IdMap {
    names: StringHashMap<String>,
}

impl View for IdMap {
    type V = Map<Seq<char>, Seq<char>>;

    closed spec fn view(&self) -> Map<Seq<char>, Seq<char>> {
        self.names@.map_values(|name: String| name@)
    }
}

impl IdMap {
    /// An empty table.
    pub fn new() -> (res: IdMap)
        ensures
            res@ == Map::<Seq<char>, Seq<char>>::empty(),
    {
        let res = IdMap { names: StringHashMap::new() };
        assert(res@ =~= Map::<Seq<char>, Seq<char>>::empty());
        res
    }

    /// Records `name` as the name of the object `id`, replacing any name
    /// recorded for it before.
    pub fn insert(&mut self, id: String, name: String)
        ensures
            final(self)@ == old(self)@.insert(id@, name@),
    {
        self.names.insert(id, name);
        assert(self@ =~= old(self)@.insert(id@, name@));
    }

    /// The name recorded for `id`, if any.
    pub fn get(&self, id: &str) -> (res: Option<&String>)
        ensures
            match res {
                Some(name) => self@.contains_key(id@) && name@ == self@[id@],
                None => !self@.contains_key(id@),
            },
    {
        self.names.get(id)
    }
}

/// The table that records the pairs in order; a later pair for the same
/// identifier replaces an earlier one.
pub open spec fn map_of_pairs(pairs: Seq<(Seq<char>, Seq<char>)>) -> Map<Seq<char>, Seq<char>>
    decreases pairs.len(),
{
    if pairs.len() == 0 {
        Map::empty()
    } else {
        map_of_pairs(pairs.drop_last()).insert(pairs.last().0, pairs.last().1)
    }
}

/// The name recorded for an identifier is the one of its last pair.
pub proof fn lemma_last_pair_wins(pairs: Seq<(Seq<char>, Seq<char>)>, i: int)
    requires
        0 <= i < pairs.len(),
        forall|j: int| i < j < pairs.len() ==> #[trigger] pairs[j].0 != pairs[i].0,
    ensures
        map_of_pairs(pairs).contains_key(pairs[i].0),
        map_of_pairs(pairs)[pairs[i].0] == pairs[i].1,
    decreases pairs.len(),
{
    if i < pairs.len() - 1 {
        assert(pairs.last().0 != pairs[i].0);
        let init = pairs.drop_last();
        assert forall|j: int| i < j < init.len() implies #[trigger] init[j].0 != init[i].0 by {
            assert(init[j] == pairs[j]);
        }
        lemma_last_pair_wins(init, i);
    }
}

/// Every identifier of the table comes from some pair, and only those.
pub proof fn lemma_map_keys_come_from_pairs(pairs: Seq<(Seq<char>, Seq<char>)>, id: Seq<char>)
    ensures
        map_of_pairs(pairs).contains_key(id) <==> exists|j: int| 0 <= j < pairs.len() && #[trigger] pairs[j].0 == id,
    decreases pairs.len(),
{
    if pairs.len() > 0 {
        let init = pairs.drop_last();
        lemma_map_keys_come_from_pairs(init, id);
        if exists|j: int| 0 <= j < init.len() && #[trigger] init[j].0 == id {
            let j = choose|j: int| 0 <= j < init.len() && #[trigger] init[j].0 == id;
            assert(pairs[j] == init[j]);
        }
        if exists|j: int| 0 <= j < pairs.len() && #[trigger] pairs[j].0 == id {
            let j = choose|j: int| 0 <= j < pairs.len() && #[trigger] pairs[j].0 == id;
            if j < init.len() {
                assert(init[j] == pairs[j]);
            }
        }
    }
}

/// The views of a sequence of (identifier, name) pairs.
pub open spec fn pairs_view(pairs: Seq<(String, String)>) -> Seq<(Seq<char>, Seq<char>)> {
    pairs.map_values(|p: (String, String)| (p.0@, p.1@))
}

/// Builds the identifier table from (identifier, name) pairs; where an
/// identifier occurs more than once, its last pair wins.
pub fn build_id_map(pairs: Vec<(String, String)>) -> (res: IdMap)
    ensures
        res@ == map_of_pairs(pairs_view(pairs@)),
{
    let ghost all = pairs_view(pairs@);
    let mut map = IdMap::new();
    let mut rest = pairs;
    let mut done: Ghost<Seq<(Seq<char>, Seq<char>)>> = Ghost(Seq::empty());
    while rest.len() > 0
        invariant
            done@ + pairs_view(rest@) == all,
            map@ == map_of_pairs(done@),
        decreases rest@.len(),
    {
        let ghost before = rest@;
        let (id, name) = rest.remove(0);
        proof {
            assert(pairs_view(before) =~= seq![(id@, name@)] + pairs_view(rest@));
            let next = done@.push((id@, name@));
            assert(next.drop_last() =~= done@);
            assert(next + pairs_view(rest@) =~= done@ + pairs_view(before));
            done@ = next;
        }
        map.insert(id, name);
    }
    assert(done@ =~= all);
    map
}

/// The name of an exported object: `<parent>.<stem>` for the file
/// `<grandparent>/<parent>/<stem>.json`, or `<grandparent>.<stem>` when the
/// file is named like the folder that holds it.
pub open spec fn object_name(file_stem: Seq<char>, parent: Seq<char>, grandparent: Seq<char>) -> Seq<char> {
    if file_stem == parent {
        grandparent + seq!['.'] + file_stem
    } else {
        parent + seq!['.'] + file_stem
    }
}

/// An object is named after the folder that holds it, unless the file bears
/// exactly that folder's name: only then is it named after the folder
/// above. Either way the name ends in a dot and the file's stem.
pub proof fn lemma_object_name_parts(file_stem: Seq<char>, parent: Seq<char>, grandparent: Seq<char>)
    ensures
        file_stem != parent ==> object_name(file_stem, parent, grandparent) == parent + seq!['.']
            + file_stem,
        file_stem == parent ==> object_name(file_stem, parent, grandparent) == grandparent + seq![
            '.',
        ] + file_stem,
{
}

/// Names an exported object after its file: from the file's stem and the
/// names of the folder that holds it and of that folder's parent.
pub fn build_object_name(file_stem: &str, parent: &str, grandparent: &str) -> (res: String)
    ensures
        res@ == object_name(file_stem@, parent@, grandparent@),
{
    let dot = ".";
    proof {
        reveal_strlit(".");
    }
    let mut res = if str_eq(file_stem, parent) {
        grandparent.to_owned()
    } else {
        parent.to_owned()
    };
    res.append(dot);
    res.append(file_stem);
    res
}

} // verus!
