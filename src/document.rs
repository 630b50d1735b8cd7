use vstd::prelude::*;
use crate::resolve::{explains, resolvable, resolve, resolves_to, ResolveError};
use crate::section::{Section, SectionModel};

verus! {

/// A configuration document: named sections, each resolved on its own.
#[derive(Debug)]
pub struct Document {
    pub sections: Vec<(String, Section)>,
}

impl View for Document {
    type V = Seq<(Seq<char>, SectionModel)>;

    open spec fn view(&self) -> Seq<(Seq<char>, SectionModel)> {
        self.sections@.map_values(|e: (String, Section)| (e.0@, e.1@))
    }
}

impl Document {
    /// Every section has distinct field names.
    pub open spec fn wf(&self) -> bool {
        forall|i: int| 0 <= i < self.sections@.len() ==> (#[trigger] self.sections@[i]).1.wf()
    }
}

/// The first section of a document that could not be resolved, and why.
#[derive(Debug)]
pub struct DocumentError {
    pub section: String,
    pub error: ResolveError,
}

/// Resolves every section of `document` in turn.
///
/// Succeeds exactly when every section is resolvable, with each section resolved; fails
/// with the first section that is not, and the error that resolving it reports.
pub fn parse_and_resolve(document: Document) -> (r: Result<Document, DocumentError>)
    requires
        document.wf(),
    ensures
        r is Ok <==> forall|i: int| 0 <= i < document@.len() ==> resolvable(#[trigger] document@[i].1),
        r matches Ok(d) ==> {
            &&& d.wf()
            &&& d@.len() == document@.len()
            &&& forall|i: int|
                0 <= i < document@.len() ==> (#[trigger] d@[i]).0 == document@[i].0 && resolves_to(
                    document@[i].1,
                    d@[i].1,
                )
        },
        r matches Err(e) ==> exists|i: int|
            0 <= i < document@.len() && (#[trigger] document@[i]).0 == e.section@ && explains(
                document@[i].1,
                e.error,
            ) && forall|j: int| 0 <= j < i ==> resolvable(#[trigger] document@[j].1),
{
    let ghost doc = document@;
    let mut sections = document.sections;
    let ghost entries = sections@;
    let n = sections.len();
    let mut done: Vec<(String, Section)> = Vec::new();
    let mut i: usize = 0;
    while i < n
        invariant
            document@ == doc,
            n == entries.len(),
            doc == entries.map_values(|e: (String, Section)| (e.0@, e.1@)),
            i <= n,
            sections@.len() == n - i,
            forall|j: int| 0 <= j < n - i ==> #[trigger] sections@[j] == entries[j + i],
            forall|j: int| 0 <= j < n ==> (#[trigger] entries[j]).1.wf(),
            done@.len() == i,
            forall|j: int|
                0 <= j < i ==> {
                    &&& (#[trigger] done@[j]).0@ == doc[j].0
                    &&& done@[j].1.wf()
                    &&& resolvable(doc[j].1)
                    &&& resolves_to(doc[j].1, done@[j].1@)
                },
        decreases n - i,
    {
        let (name, mut section) = sections.remove(0);
        assert(doc[i as int] == (name@, section@));
        match resolve(&mut section) {
            Ok(()) => {
                done.push((name, section));
            },
            Err(error) => {
                let e = DocumentError { section: name, error };
                assert(!resolvable(doc[i as int].1));
                assert forall|j: int| 0 <= j < i implies resolvable(#[trigger] doc[j].1) by {
                    assert(done@[j].0@ == doc[j].0);
                    assert(done@[j].1.wf());
                    assert(resolvable(doc[j].1));
                };
                assert(0 <= i < doc.len() && doc[i as int].0 == e.section@ && explains(doc[i as int].1, e.error));
                return Err(e);
            },
        }
        i += 1;
    }
    let d = Document { sections: done };
    proof {
        assert forall|j: int| 0 <= j < doc.len() implies resolvable(#[trigger] doc[j].1) by {
            assert(done@[j].0@ == doc[j].0);
            assert(done@[j].1.wf());
            assert(resolvable(doc[j].1));
        };
        assert forall|j: int| 0 <= j < doc.len() implies (#[trigger] d@[j]).0 == doc[j].0 && resolves_to(doc[j].1, d@[j].1) by {
            assert(d@[j] == (done@[j].0@, done@[j].1@));
        };
    }
    Ok(d)
}

} // verus!
