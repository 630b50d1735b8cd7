use vstd::prelude::*;
use crate::value::{Value, ValueModel};

verus! {

/// One named field of a section.
#[derive(Debug)]
pub struct Field {
    pub name: String,
    pub value: Value,
}

/// A section: fields with distinct names, each holding a value.
#[derive(Debug)]
pub struct Section {
    pub fields: Vec<Field>,
}

/// The mathematical model of a section: its fields in order, as (name, value).
pub type SectionModel = Seq<(Seq<char>, ValueModel)>;

impl View for Section {
    type V = SectionModel;

    open spec fn view(&self) -> SectionModel {
        self.fields@.map_values(|f: Field| (f.name@, f.value@))
    }
}

pub open spec fn names_distinct(sec: SectionModel) -> bool {
    forall|i: int, j: int| 0 <= i < sec.len() && 0 <= j < sec.len() && i != j ==> sec[i].0 != sec[j].0
}

pub open spec fn has_field(sec: SectionModel, name: Seq<char>) -> bool {
    exists|i: int| 0 <= i < sec.len() && sec[i].0 == name
}

/// The place of the field called `name`.
pub open spec fn index_of(sec: SectionModel, name: Seq<char>) -> int {
    choose|i: int| 0 <= i < sec.len() && sec[i].0 == name
}

/// With distinct names, the field called `sec[i].0` stands at `i`.
pub proof fn lemma_index_of(sec: SectionModel, i: int)
    requires
        names_distinct(sec),
        0 <= i < sec.len(),
    ensures
        index_of(sec, sec[i].0) == i,
{
    assert(0 <= i < sec.len() && sec[i].0 == sec[i].0);
}

impl Section {
    /// No two fields share a name.
    pub open spec fn wf(&self) -> bool {
        names_distinct(self@)
    }

    /// A section with no fields.
    pub fn new() -> (r: Section)
        ensures
            r@ == Seq::<(Seq<char>, ValueModel)>::empty(),
            r.wf(),
    {
        let r = Section { fields: Vec::new() };
        assert(r@ =~= Seq::<(Seq<char>, ValueModel)>::empty());
        r
    }

    /// The number of fields.
    pub fn len(&self) -> (r: usize)
        ensures
            r == self@.len(),
    {
        self.fields.len()
    }

    /// The place of the field called `name`, if there is one.
    pub fn position(&self, name: &String) -> (r: Option<usize>)
        ensures
            r matches Some(i) ==> i < self@.len() && self@[i as int].0 == name@,
            r is None ==> !has_field(self@, name@),
    {
        let mut i: usize = 0;
        while i < self.fields.len()
            invariant
                i <= self.fields@.len(),
                forall|j: int| 0 <= j < i ==> self@[j].0 != name@,
            decreases self.fields@.len() - i,
        {
            if self.fields[i].name == *name {
                return Some(i);
            }
            i += 1;
        }
        None
    }

    /// The value of the field called `name`, if there is one.
    pub fn get(&self, name: &str) -> (r: Option<&Value>)
        requires
            self.wf(),
        ensures
            r matches Some(v) ==> has_field(self@, name@) && v@ == self@[index_of(self@, name@)].1,
            r is None ==> !has_field(self@, name@),
    {
        let key = name.to_owned();
        match self.position(&key) {
            Some(i) => {
                proof {
                    lemma_index_of(self@, i as int);
                }
                Some(&self.fields[i].value)
            },
            None => None,
        }
    }

    /// Sets the field called `name` to `value`, adding it at the end if it is new.
    pub fn insert(&mut self, name: String, value: Value)
        requires
            old(self).wf(),
        ensures
            final(self).wf(),
            has_field(old(self)@, name@) ==> final(self)@ == old(self)@.update(
                index_of(old(self)@, name@),
                (name@, value@),
            ),
            !has_field(old(self)@, name@) ==> final(self)@ == old(self)@.push((name@, value@)),
    {
        let ghost before = self@;
        match self.position(&name) {
            Some(i) => {
                proof {
                    lemma_index_of(before, i as int);
                }
                self.fields[i].value = value;
                assert(self@ =~= before.update(i as int, (name@, value@)));
            },
            None => {
                let ghost nm = name@;
                let ghost vm = value@;
                self.fields.push(Field { name, value });
                assert(self@ =~= before.push((nm, vm)));
            },
        }
    }
}

} // verus!
