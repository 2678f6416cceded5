//! The series registry: which series name has which identifier.
//!
//! Identifiers are handed out in the order in which names are first seen,
//! starting at zero and without gaps.

use crate::error::DbError;
use vstd::hash_map::StringHashMap;
use vstd::prelude::*;

verus! {

/// The texts of a vector of strings.
pub open spec fn texts(strings: Seq<String>) -> Seq<Seq<char>> {
    Seq::new(strings.len(), |i: int| strings[i]@)
}

/// The identifier under which `name` is found in `names`: the last position
/// at which it stands, if it stands anywhere.
pub open spec fn id_of(names: Seq<Seq<char>>, name: Seq<char>) -> Option<int>
    decreases names.len(),
{
    if names.len() == 0 {
        None
    } else if names.last() == name {
        Some(names.len() - 1)
    } else {
        id_of(names.drop_last(), name)
    }
}

/// What `id_of` finds is the last position of the name, and it finds every
/// name that is there.
pub proof fn lemma_id_of(names: Seq<Seq<char>>, name: Seq<char>)
    ensures
        match id_of(names, name) {
            Some(id) => 0 <= id < names.len() && names[id] == name && forall|j: int|
                id < j < names.len() ==> names[j] != name,
            None => forall|j: int| 0 <= j < names.len() ==> names[j] != name,
        },
    decreases names.len(),
{
    if names.len() > 0 && names.last() != name {
        lemma_id_of(names.drop_last(), name);
        assert forall|j: int| 0 <= j < names.len() - 1 implies names.drop_last()[j]
            == names[j] by {}
    }
}

/// In a list without repeated names every position is the identifier of the
/// name that stands there, and only in such a list.
pub proof fn lemma_distinct_names(names: Seq<Seq<char>>)
    ensures
        names.no_duplicates() <==> forall|i: int|
            0 <= i < names.len() ==> id_of(names, #[trigger] names[i]) == Some(i),
{
    if names.no_duplicates() {
        assert forall|i: int| 0 <= i < names.len() implies id_of(names, #[trigger] names[i])
            == Some(i) by {
            lemma_id_of(names, names[i]);
        }
    }
    if forall|i: int| 0 <= i < names.len() ==> id_of(names, #[trigger] names[i]) == Some(i) {
        assert forall|i: int, j: int| 0 <= i < j < names.len() implies names[i] != names[j] by {
            lemma_id_of(names, names[i]);
            assert(id_of(names, names[i]) == Some(i));
        }
    }
}

/// The series names in identifier order, with a map from name to identifier
/// for the lookup.
pub struct SeriesRegistry {
    ids: StringHashMap<u32>,
    names: Vec<String>,
}

impl View for SeriesRegistry {
    type V = Seq<Seq<char>>;

    /// The series names; the name at index `i` belongs to identifier `i`.
    closed spec fn view(&self) -> Seq<Seq<char>> {
        texts(self.names@)
    }
}

impl SeriesRegistry {
    /// The invariant of the type: identifiers fit in 32 bits with room for
    /// their count, and the lookup map agrees with the list of names.
    pub closed spec fn wf(&self) -> bool {
        &&& self@.len() <= u32::MAX
        &&& forall|name: Seq<char>| #[trigger]
            self.ids@.contains_key(name) <==> id_of(self@, name) is Some
        &&& forall|name: Seq<char>| #[trigger]
            self.ids@.contains_key(name) ==> id_of(self@, name) == Some(self.ids@[name] as int)
    }

    /// A well-formed registry holds at most `u32::MAX` series.
    pub proof fn lemma_count_fits(&self)
        requires
            self.wf(),
        ensures
            self@.len() <= u32::MAX,
    {
    }

    /// A registry without series.
    pub fn new() -> (registry: SeriesRegistry)
        ensures
            registry.wf(),
            registry@ == Seq::<Seq<char>>::empty(),
    {
        let registry = SeriesRegistry { ids: StringHashMap::new(), names: Vec::new() };
        assert(registry@ =~= Seq::empty());
        registry
    }

    /// The number of series.
    pub fn count(&self) -> (n: u32)
        requires
            self.wf(),
        ensures
            n == self@.len(),
    {
        self.names.len() as u32
    }

    /// The identifier of `name`, if the name is registered.
    pub fn lookup(&self, name: &str) -> (id: Option<u32>)
        requires
            self.wf(),
        ensures
            match id {
                Some(id) => id_of(self@, name@) == Some(id as int),
                None => id_of(self@, name@) is None,
            },
    {
        match self.ids.get(name) {
            Some(id) => Some(*id),
            None => None,
        }
    }

    /// Finds the identifier of `name`, registering the name first where it is
    /// new. The second component of the result tells whether it was new: the
    /// new identifier is then the number of series before the call. Where all
    /// identifiers are taken a new name is refused.
    pub fn get_or_create_id(&mut self, name: String) -> (r: Result<(u32, bool), DbError>)
        requires
            old(self).wf(),
        ensures
            final(self).wf(),
            match id_of(old(self)@, name@) {
                Some(id) => r == Ok::<(u32, bool), DbError>((id as u32, false)) && final(self)@
                    == old(self)@,
                None => if old(self)@.len() < u32::MAX {
                    r == Ok::<(u32, bool), DbError>((old(self)@.len() as u32, true))
                        && final(self)@ == old(self)@.push(name@)
                } else {
                    r == Err::<(u32, bool), DbError>(DbError::SeriesLimit) && final(self)@ == old(
                        self,
                    )@
                },
            },
    {
        match self.ids.get(name.as_str()) {
            Some(id) => {
                return Ok((*id, false));
            },
            None => {},
        }
        if self.names.len() >= u32::MAX as usize {
            return Err(DbError::SeriesLimit);
        }
        let id = self.names.len() as u32;
        self.ids.insert(name.clone(), id);
        self.names.push(name);
        proof {
            let before = old(self)@;
            let after = self@;
            assert(after =~= before.push(name@));
            assert(after.drop_last() =~= before);
        }
        Ok((id, true))
    }

    /// The series names in identifier order, made by turning the lookup map
    /// round. This fails where some identifier has no name left, which is
    /// where a name stands at two positions: the later one then took it from
    /// the earlier.
    pub fn id_to_name(&self) -> (r: Result<Vec<String>, DbError>)
        requires
            self.wf(),
        ensures
            self@.no_duplicates() ==> r is Ok && texts(r->Ok_0@) == self@,
            !self@.no_duplicates() ==> r == Err::<Vec<String>, DbError>(
                DbError::InternalConsistency,
            ),
    {
        let mut out: Vec<String> = Vec::new();
        let mut i: usize = 0;
        while i < self.names.len()
            invariant
                self.wf(),
                i <= self.names.len(),
                texts(out@) == self@.take(i as int),
                forall|j: int| 0 <= j < i ==> id_of(self@, #[trigger] self@[j]) == Some(j),
            decreases self.names.len() - i,
        {
            let named = match self.ids.get(self.names[i].as_str()) {
                Some(id) => *id as usize == i,
                None => false,
            };
            if !named {
                proof {
                    lemma_distinct_names(self@);
                    assert(id_of(self@, self@[i as int]) != Some(i as int));
                }
                return Err(DbError::InternalConsistency);
            }
            let ghost before = out@;
            out.push(self.names[i].clone());
            proof {
                assert(texts(before).len() == i);
                assert forall|j: int| 0 <= j < i + 1 implies texts(out@)[j] == self@[j] by {
                    if j < i {
                        assert(texts(before)[j] == self@.take(i as int)[j]);
                    }
                }
                assert(texts(out@) =~= self@.take(i + 1));
            }
            i += 1;
        }
        proof {
            lemma_distinct_names(self@);
            assert(self@.take(i as int) =~= self@);
        }
        Ok(out)
    }

    /// A registry in which the name at index `i` of `names` has identifier
    /// `i`. More names than there are identifiers are refused.
    pub fn from_names(names: Vec<String>) -> (r: Result<SeriesRegistry, DbError>)
        ensures
            names@.len() <= u32::MAX ==> r is Ok && r->Ok_0.wf() && r->Ok_0@ == texts(names@),
            names@.len() > u32::MAX ==> r == Err::<SeriesRegistry, DbError>(DbError::SeriesLimit),
    {
        if names.len() > u32::MAX as usize {
            return Err(DbError::SeriesLimit);
        }
        let mut ids: StringHashMap<u32> = StringHashMap::new();
        let mut i: usize = 0;
        while i < names.len()
            invariant
                i <= names.len(),
                names.len() <= u32::MAX,
                forall|name: Seq<char>| #[trigger]
                    ids@.contains_key(name) <==> id_of(texts(names@).take(i as int), name) is Some,
                forall|name: Seq<char>| #[trigger]
                    ids@.contains_key(name) ==> id_of(texts(names@).take(i as int), name) == Some(
                        ids@[name] as int,
                    ),
            decreases names.len() - i,
        {
            ids.insert(names[i].clone(), i as u32);
            proof {
                let all = texts(names@);
                assert(all.take(i + 1).drop_last() =~= all.take(i as int));
                assert(all.take(i + 1).last() == names[i as int]@);
            }
            i += 1;
        }
        proof {
            assert(texts(names@).take(i as int) =~= texts(names@));
        }
        Ok(SeriesRegistry { ids, names })
    }
}

} // verus!
