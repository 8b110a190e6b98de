//! The neighbour lists a coordinator assigns.

use crate::message::lemma_deep_view_push;
use vstd::prelude::*;

verus! {

/// A mapping from identities to neighbour lists: one entry per node, made of
/// the node's identity and the identities of its neighbours, in the order in
/// which the entries were put in. No identity has two entries.
#[derive(Debug, PartialEq, Eq)]
pub struct Topology {
    entries: Vec<(String, Vec<String>)>,
}

impl DeepView for Topology {
    type V = Seq<(Seq<char>, Seq<Seq<char>>)>;

    closed spec fn deep_view(&self) -> Seq<(Seq<char>, Seq<Seq<char>>)> {
        self.entries.deep_view()
    }
}

/// Whether no identity has two entries in `topology`.
pub open spec fn distinct_identities(topology: Seq<(Seq<char>, Seq<Seq<char>>)>) -> bool {
    forall|i: int, j: int|
        0 <= i < topology.len() && 0 <= j < topology.len() && i != j ==> (#[trigger] topology[i]).0
            != (#[trigger] topology[j]).0
}

/// The neighbours `topology` assigns to `id`: those of its first entry for
/// `id`, if it has one.
pub open spec fn assigned(topology: Seq<(Seq<char>, Seq<Seq<char>>)>, id: Seq<char>) -> Option<
    Seq<Seq<char>>,
>
    decreases topology.len(),
{
    if topology.len() == 0 {
        None
    } else if topology[0].0 == id {
        Some(topology[0].1)
    } else {
        assigned(topology.skip(1), id)
    }
}

/// Nothing is assigned to exactly the identities without an entry.
pub proof fn lemma_assigned_nothing(topology: Seq<(Seq<char>, Seq<Seq<char>>)>, id: Seq<char>)
    ensures
        assigned(topology, id) is None <==> forall|i: int|
            0 <= i < topology.len() ==> (#[trigger] topology[i]).0 != id,
    decreases topology.len(),
{
    if topology.len() > 0 {
        let rest = topology.skip(1);
        lemma_assigned_nothing(rest, id);
        if topology[0].0 != id {
            if assigned(topology, id) is None {
                assert forall|i: int| 0 <= i < topology.len() implies (#[trigger] topology[i]).0
                    != id by {
                    if i > 0 {
                        assert(rest[i - 1] == topology[i]);
                    }
                }
            } else {
                let k = choose|k: int| 0 <= k < rest.len() && (#[trigger] rest[k]).0 == id;
                assert(topology[k + 1] == rest[k]);
            }
        }
    }
}

/// Where no identity has two entries, what is assigned to the identity of
/// an entry is what that entry holds.
pub proof fn lemma_assigned_is_the_entry(topology: Seq<(Seq<char>, Seq<Seq<char>>)>, i: int)
    requires
        distinct_identities(topology),
        0 <= i < topology.len(),
    ensures
        assigned(topology, topology[i].0) == Some(topology[i].1),
    decreases topology.len(),
{
    if i > 0 {
        let rest = topology.skip(1);
        assert(topology[0].0 != topology[i].0);
        assert forall|a: int, b: int|
            0 <= a < rest.len() && 0 <= b < rest.len() && a != b implies (#[trigger] rest[a]).0 != (
        #[trigger] rest[b]).0 by {
            assert(rest[a] == topology[a + 1]);
            assert(rest[b] == topology[b + 1]);
        }
        assert(rest[i - 1] == topology[i]);
        lemma_assigned_is_the_entry(rest, i - 1);
    }
}

/// What `assigned` finds in a topology with one more entry behind: what it
/// found before, or else the new entry if that is for `id`.
pub proof fn lemma_assigned_push(
    topology: Seq<(Seq<char>, Seq<Seq<char>>)>,
    entry: (Seq<char>, Seq<Seq<char>>),
    id: Seq<char>,
)
    ensures
        assigned(topology.push(entry), id) == if assigned(topology, id) is Some {
            assigned(topology, id)
        } else if entry.0 == id {
            Some(entry.1)
        } else {
            None
        },
    decreases topology.len(),
{
    let longer = topology.push(entry);
    if topology.len() == 0 {
        assert(longer.skip(1) =~= Seq::empty());
    } else {
        assert(longer[0] == topology[0]);
        assert(longer.skip(1) =~= topology.skip(1).push(entry));
        lemma_assigned_push(topology.skip(1), entry, id);
    }
}

/// The entries of `all` without those for an identity that has an entry
/// further in front.
pub open spec fn first_entries(all: Seq<(Seq<char>, Seq<Seq<char>>)>) -> Seq<
    (Seq<char>, Seq<Seq<char>>),
>
    decreases all.len(),
{
    if all.len() == 0 {
        Seq::empty()
    } else {
        let earlier = first_entries(all.drop_last());
        if assigned(earlier, all.last().0) is None {
            earlier.push(all.last())
        } else {
            earlier
        }
    }
}

/// Among the first entries no identity occurs twice, and they assign to
/// every identity what all the entries assign to it.
pub proof fn lemma_first_entries(all: Seq<(Seq<char>, Seq<Seq<char>>)>)
    ensures
        distinct_identities(first_entries(all)),
        forall|id: Seq<char>| #[trigger] assigned(first_entries(all), id) == assigned(all, id),
    decreases all.len(),
{
    if all.len() > 0 {
        let front = all.drop_last();
        let earlier = first_entries(front);
        let last = all.last();
        lemma_first_entries(front);
        assert(all =~= front.push(last));
        assert forall|id: Seq<char>| #[trigger]
            assigned(first_entries(all), id) == assigned(all, id) by {
            lemma_assigned_push(front, last, id);
            lemma_assigned_push(earlier, last, id);
            assert(assigned(earlier, id) == assigned(front, id));
            assert(assigned(earlier, last.0) == assigned(front, last.0));
        }
        if assigned(earlier, last.0) is None {
            lemma_assigned_nothing(earlier, last.0);
        }
    }
}

/// The neighbours that the first of `entries` for `id` holds, if there is
/// one.
fn lookup<'a>(entries: &'a Vec<(String, Vec<String>)>, id: &String) -> (found: Option<
    &'a Vec<String>,
>)
    ensures
        match found {
            Some(neighbours) => Some(neighbours.deep_view()),
            None => None,
        } == assigned(entries.deep_view(), id@),
{
    let ghost all = entries.deep_view();
    let mut i: usize = 0;
    assert(all.skip(0) =~= all);
    while i < entries.len()
        invariant
            i <= entries.len(),
            all == entries.deep_view(),
            assigned(all, id@) == assigned(all.skip(i as int), id@),
        decreases entries.len() - i,
    {
        assert(all.skip(i as int)[0] == all[i as int]);
        assert(all.skip(i as int).skip(1) =~= all.skip(i as int + 1));
        if entries[i].0 == *id {
            return Some(&entries[i].1);
        }
        i += 1;
    }
    None
}

/// A copy of `names`.
fn copy_names(names: &Vec<String>) -> (copy: Vec<String>)
    ensures
        copy.deep_view() == names.deep_view(),
{
    let mut copy: Vec<String> = Vec::new();
    let mut i: usize = 0;
    assert(copy.deep_view() =~= names.deep_view().take(0));
    while i < names.len()
        invariant
            i <= names.len(),
            copy.deep_view() == names.deep_view().take(i as int),
        decreases names.len() - i,
    {
        let ghost so_far = copy;
        copy.push(names[i].clone());
        i += 1;
        proof {
            lemma_deep_view_push(so_far, copy, names[i as int - 1]);
            assert(copy.deep_view() =~= names.deep_view().take(i as int));
        }
    }
    assert(names.deep_view().take(i as int) =~= names.deep_view());
    copy
}

impl Clone for Topology {
    fn clone(&self) -> (copy: Self)
        ensures
            copy.deep_view() == self.deep_view(),
    {
        proof {
            use_type_invariant(self);
        }
        let mut entries: Vec<(String, Vec<String>)> = Vec::new();
        let mut i: usize = 0;
        assert(entries.deep_view() =~= self.entries.deep_view().take(0));
        while i < self.entries.len()
            invariant
                i <= self.entries.len(),
                entries.deep_view() == self.entries.deep_view().take(i as int),
            decreases self.entries.len() - i,
        {
            let ghost so_far = entries;
            let entry = (self.entries[i].0.clone(), copy_names(&self.entries[i].1));
            let ghost last = entry;
            entries.push(entry);
            i += 1;
            proof {
                lemma_deep_view_push(so_far, entries, last);
                assert(entries.deep_view() =~= self.entries.deep_view().take(i as int));
            }
        }
        assert(self.entries.deep_view().take(i as int) =~= self.entries.deep_view());
        Topology { entries }
    }
}

impl Topology {
    /// No identity has two entries. This holds of every topology.
    #[verifier::type_invariant]
    closed spec fn wf(&self) -> bool {
        distinct_identities(self.entries.deep_view())
    }

    /// The topology of `entries`. Where an identity has several entries, the
    /// one that comes first counts and the others are left out.
    pub fn from_entries(entries: Vec<(String, Vec<String>)>) -> (topology: Self)
        ensures
            topology.deep_view() == first_entries(entries.deep_view()),
    {
        let ghost all = entries.deep_view();
        let mut kept: Vec<(String, Vec<String>)> = Vec::new();
        assert(all.take(0) =~= Seq::empty());
        assert(kept.deep_view() =~= Seq::empty());
        for entry in iter: entries
            invariant
                all == entries.deep_view(),
                iter.seq() == entries@,
                kept.deep_view() == first_entries(all.take(iter.index() as int)),
        {
            let ghost so_far = kept;
            let ghost last = entry;
            assert(all.take(iter.index() as int + 1).drop_last() =~= all.take(iter.index() as int));
            assert(all.take(iter.index() as int + 1).last() == entry.deep_view());
            if lookup(&kept, &entry.0).is_none() {
                kept.push(entry);
                proof {
                    lemma_deep_view_push(so_far, kept, last);
                }
            }
        }
        proof {
            assert(all.take(all.len() as int) =~= all);
            lemma_first_entries(all);
        }
        Topology { entries: kept }
    }

    /// How many entries there are.
    pub fn len(&self) -> (n: usize)
        ensures
            n == self.deep_view().len(),
    {
        self.entries.len()
    }

    /// The entries, in order. No identity has two of them.
    pub fn entries(&self) -> (entries: &Vec<(String, Vec<String>)>)
        ensures
            entries.deep_view() == self.deep_view(),
            distinct_identities(self.deep_view()),
    {
        proof {
            use_type_invariant(self);
        }
        &self.entries
    }

    /// The neighbours this topology assigns to `id`, if any.
    pub fn neighbours_of(&self, id: &String) -> (found: Option<&Vec<String>>)
        ensures
            match found {
                Some(neighbours) => Some(neighbours.deep_view()),
                None => None,
            } == assigned(self.deep_view(), id@),
    {
        lookup(&self.entries, id)
    }
}

} // verus!
