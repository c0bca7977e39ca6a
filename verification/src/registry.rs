//! The widget registry: which update predicate and which render function
//! belong to a widget type.

use vstd::prelude::*;

verus! {

/// The pair of functions of one widget type. The functions live with the
/// host; the registry holds the handles under which the host finds them.
#[derive(Clone, Copy, PartialEq, Eq, Structural, Debug)]
pub struct SystemPair {
    /// Decides whether a widget changed since the frame before.
    pub update: u64,
    /// Produces the children that a changed widget wants.
    pub render: u64,
}

/// One registration.
pub struct WidgetRecord {
    pub widget_type: String,
    pub systems: SystemPair,
}

/// A widget type was dispatched that no pair of functions is registered for.
#[derive(Debug)]
pub struct ConfigurationError {
    pub widget_type: String,
}

/// The registrations, keyed by type name.
pub struct WidgetSystems {
    records: Vec<WidgetRecord>,
}

impl View for WidgetSystems {
    type V = Map<Seq<char>, SystemPair>;

    closed spec fn view(&self) -> Map<Seq<char>, SystemPair> {
        Map::new(
            |name: Seq<char>| self.position(name) is Some,
            |name: Seq<char>| self.records@[self.position(name)->0].systems,
        )
    }
}

impl WidgetSystems {
    closed spec fn position(&self, name: Seq<char>) -> Option<int> {
        if exists|i: int| 0 <= i < self.records@.len() && self.records@[i].widget_type@ == name {
            Some(
                choose|i: int| 0 <= i < self.records@.len() && self.records@[i].widget_type@ == name,
            )
        } else {
            None
        }
    }

    /// No type name is registered twice.
    pub closed spec fn wf(&self) -> bool {
        forall|i: int, j: int|
            0 <= i < j < self.records@.len() ==> self.records@[i].widget_type@
                != self.records@[j].widget_type@
    }

    /// A registry without registrations.
    pub fn new() -> (r: WidgetSystems)
        ensures
            r.wf(),
            r@ == Map::<Seq<char>, SystemPair>::empty(),
    {
        let r = WidgetSystems { records: Vec::new() };
        assert(r@ =~= Map::<Seq<char>, SystemPair>::empty());
        r
    }

    fn find(&self, name: &str) -> (r: Option<usize>)
        ensures
            match r {
                Some(i) => i < self.records@.len() && self.records@[i as int].widget_type@ == name@,
                None => forall|j: int|
                    0 <= j < self.records@.len() ==> self.records@[j].widget_type@ != name@,
            },
    {
        let wanted = name.to_owned();
        let mut i: usize = 0;
        while i < self.records.len()
            invariant
                i <= self.records@.len(),
                wanted@ == name@,
                forall|j: int| 0 <= j < i ==> self.records@[j].widget_type@ != name@,
            decreases self.records@.len() - i,
        {
            if self.records[i].widget_type == wanted {
                return Some(i);
            }
            i = i + 1;
        }
        None
    }

    /// The pair registered for `name`.
    pub fn get(&self, name: &str) -> (r: Option<SystemPair>)
        requires
            self.wf(),
        ensures
            r == if self@.contains_key(name@) {
                Some(self@[name@])
            } else {
                None
            },
    {
        match self.find(name) {
            Some(i) => {
                assert(self.position(name@) == Some(i as int));
                Some(self.records[i].systems)
            },
            None => None,
        }
    }

    /// Registers `systems` for `name`, in place of what was registered for it
    /// before.
    pub fn insert(&mut self, name: &str, systems: SystemPair)
        requires
            old(self).wf(),
        ensures
            final(self).wf(),
            final(self)@ == old(self)@.insert(name@, systems),
    {
        let found = self.find(name);
        let ghost before = *self;
        match found {
            Some(i) => {
                let record = WidgetRecord { widget_type: name.to_owned(), systems };
                self.records.set(i, record);
                assert(self.wf());
                assert forall|k: Seq<char>| #[trigger]
                    self@.contains_key(k) <==> before@.insert(name@, systems).contains_key(k) by {
                    if before.position(k) is Some {
                        let j = before.position(k)->0;
                        assert(self.records@[j].widget_type@ == k);
                    }
                    if self.position(k) is Some {
                        let j = self.position(k)->0;
                        assert(before.records@[j].widget_type@ == k);
                    }
                }
                assert forall|k: Seq<char>| #[trigger] self@.contains_key(k) implies self@[k]
                    == before@.insert(name@, systems)[k] by {
                    let j = self.position(k)->0;
                    assert(before.records@[j].widget_type@ == k);
                    if k != name@ {
                        let j0 = before.position(k)->0;
                        assert(j0 == j);
                    } else {
                        assert(j == i);
                    }
                }
                assert(self@ =~= before@.insert(name@, systems));
            },
            None => {
                let record = WidgetRecord { widget_type: name.to_owned(), systems };
                self.records.push(record);
                let ghost n = before.records@.len() as int;
                assert(self.wf());
                assert forall|k: Seq<char>| #[trigger]
                    self@.contains_key(k) <==> before@.insert(name@, systems).contains_key(k) by {
                    if before.position(k) is Some {
                        let j = before.position(k)->0;
                        assert(self.records@[j].widget_type@ == k);
                    }
                    if k == name@ {
                        assert(self.records@[n].widget_type@ == k);
                    }
                    if self.position(k) is Some {
                        let j = self.position(k)->0;
                        if j < n {
                            assert(before.records@[j].widget_type@ == k);
                        }
                    }
                }
                assert forall|k: Seq<char>| #[trigger] self@.contains_key(k) implies self@[k]
                    == before@.insert(name@, systems)[k] by {
                    let j = self.position(k)->0;
                    if k != name@ {
                        assert(before.records@[j].widget_type@ == k);
                        let j0 = before.position(k)->0;
                        assert(j0 == j);
                    } else {
                        assert(j == n);
                    }
                }
                assert(self@ =~= before@.insert(name@, systems));
            },
        }
    }

    /// The pair registered for `name`, or the error that names the type.
    pub fn dispatch(&self, name: &str) -> (r: Result<SystemPair, ConfigurationError>)
        requires
            self.wf(),
        ensures
            match r {
                Ok(systems) => self@.contains_key(name@) && systems == self@[name@],
                Err(e) => !self@.contains_key(name@) && e.widget_type@ == name@,
            },
    {
        match self.get(name) {
            Some(systems) => Ok(systems),
            None => Err(ConfigurationError { widget_type: name.to_owned() }),
        }
    }

    /// How many type names are registered.
    pub fn len(&self) -> (r: usize)
        ensures
            r == self.count(),
    {
        self.records.len()
    }

    /// How many type names are registered.
    pub closed spec fn count(&self) -> nat {
        self.records@.len()
    }
}

} // verus!
