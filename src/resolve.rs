use vstd::prelude::*;
use crate::graph::{acyclic, edges_in_range, graph_view, has_edge, is_topological, reaches, topological_order};
use crate::scan::{
    lemma_refs_from_in_order, ref_views, refs_in_order, scan, scan_references, BraceFault,
    RefModel, Reference,
};
use crate::section::{
    has_field, index_of, lemma_index_of, names_distinct, Field, Section, SectionModel,
};
use crate::value::{is_scalar, render, Value, ValueModel};

verus! {

/// A field name kept for a typed-reference syntax.
pub const TEMPLATE_STRING: &'static str = "STRING";

/// A field name kept for a typed-reference syntax.
pub const TEMPLATE_NUMBER: &'static str = "NUMBER";

/// The field names that no section may use.
pub open spec fn reserved_names() -> Seq<Seq<char>> {
    seq![seq!['S', 'T', 'R', 'I', 'N', 'G'], seq!['N', 'U', 'M', 'B', 'E', 'R']]
}

pub open spec fn is_reserved(name: Seq<char>) -> bool {
    reserved_names().contains(name)
}

/// Whether `name` is one of the reserved field names.
pub fn is_reserved_name(name: &String) -> (r: bool)
    ensures
        r == is_reserved(name@),
{
    proof {
        reveal_strlit("STRING");
        reveal_strlit("NUMBER");
    }
    let string_name = TEMPLATE_STRING.to_owned();
    let number_name = TEMPLATE_NUMBER.to_owned();
    assert(string_name@ =~= reserved_names()[0]);
    assert(number_name@ =~= reserved_names()[1]);
    *name == string_name || *name == number_name
}

/// The references that field `i` holds: none unless it is a string that scans cleanly.
pub open spec fn field_refs(sec: SectionModel, i: int) -> Seq<RefModel> {
    match sec[i].1 {
        ValueModel::Str(s) => match scan(s) {
            Ok(refs) => refs,
            Err(_) => Seq::empty(),
        },
        _ => Seq::empty(),
    }
}

pub open spec fn any_reserved(sec: SectionModel) -> bool {
    exists|i: int| 0 <= i < sec.len() && is_reserved(#[trigger] sec[i].0)
}

pub open spec fn malformed_at(sec: SectionModel, i: int) -> bool {
    sec[i].1 is Str && scan(sec[i].1->Str_0) is Err
}

pub open spec fn any_malformed(sec: SectionModel) -> bool {
    exists|i: int| 0 <= i < sec.len() && #[trigger] malformed_at(sec, i)
}

/// Every reference names a field of the section.
pub open spec fn refs_known(sec: SectionModel) -> bool {
    forall|i: int, k: int|
        0 <= i < sec.len() && 0 <= k < field_refs(sec, i).len() ==> has_field(
            sec,
            #[trigger] field_refs(sec, i)[k].name,
        )
}

/// Every reference names a field that holds a string, an integer, a float or a boolean.
pub open spec fn refs_scalar(sec: SectionModel) -> bool {
    forall|i: int, k: int|
        0 <= i < sec.len() && 0 <= k < field_refs(sec, i).len() ==> is_scalar(
            sec[index_of(sec, #[trigger] field_refs(sec, i)[k].name)].1,
        )
}

/// The reference graph: `ref_graph(sec)[i]` lists the places of the fields that field `i`
/// refers to, in the order of its references.
pub open spec fn ref_graph(sec: SectionModel) -> Seq<Seq<int>> {
    Seq::new(
        sec.len(),
        |i: int| field_refs(sec, i).map_values(|r: RefModel| index_of(sec, r.name)),
    )
}

/// The section can be resolved: no reserved name, no malformed reference, every reference
/// names a scalar field of the section, and no chain of references closes on itself.
pub open spec fn resolvable(sec: SectionModel) -> bool {
    &&& !any_reserved(sec)
    &&& !any_malformed(sec)
    &&& refs_known(sec)
    &&& refs_scalar(sec)
    &&& acyclic(ref_graph(sec))
}

/// Where the text after reference `k - 1` starts.
pub open spec fn gap_start(refs: Seq<RefModel>, k: int) -> int {
    if k <= 0 {
        0
    } else {
        refs[k - 1].end
    }
}

/// The text of `raw` up to the end of reference `k - 1`, with the first `k` references
/// replaced by `texts`.
pub open spec fn spliced_prefix(
    raw: Seq<char>,
    refs: Seq<RefModel>,
    texts: Seq<Seq<char>>,
    k: int,
) -> Seq<char>
    decreases k,
{
    if k <= 0 {
        Seq::empty()
    } else {
        spliced_prefix(raw, refs, texts, k - 1) + raw.subrange(gap_start(refs, k - 1), refs[k - 1].start)
            + texts[k - 1]
    }
}

/// `raw` with each reference span replaced by the matching text.
pub open spec fn splice(raw: Seq<char>, refs: Seq<RefModel>, texts: Seq<Seq<char>>) -> Seq<char> {
    spliced_prefix(raw, refs, texts, refs.len() as int) + raw.subrange(
        gap_start(refs, refs.len() as int),
        raw.len() as int,
    )
}

pub open spec fn values_of(sec: SectionModel) -> Seq<ValueModel> {
    sec.map_values(|f: (Seq<char>, ValueModel)| f.1)
}

/// The texts that replace the references of field `i`, when the fields hold `vals`.
pub open spec fn ref_texts(sec: SectionModel, vals: Seq<ValueModel>, i: int) -> Seq<Seq<char>> {
    field_refs(sec, i).map_values(|r: RefModel| render(vals[index_of(sec, r.name)]))
}

/// What field `i` becomes when the fields it refers to hold `vals`: a string field has its
/// references replaced by the rendered values; any other field is kept.
pub open spec fn resolved_value(sec: SectionModel, vals: Seq<ValueModel>, i: int) -> ValueModel {
    match sec[i].1 {
        ValueModel::Str(s) => ValueModel::Str(splice(s, field_refs(sec, i), ref_texts(sec, vals, i))),
        v => v,
    }
}

/// `out` is `sec` resolved: the same names, and each value is what its field becomes when
/// every reference is replaced by the resolved value of its target.
pub open spec fn resolves_to(sec: SectionModel, out: SectionModel) -> bool {
    &&& out.len() == sec.len()
    &&& forall|i: int|
        0 <= i < sec.len() ==> #[trigger] out[i] == (sec[i].0, resolved_value(sec, values_of(out), i))
}

/// Why a section cannot be resolved.
#[derive(Debug)]
pub enum ResolveError {
    /// A field uses a reserved name.
    ReservedName { field: String },
    /// A string field holds an unclosed, nested or empty reference.
    MalformedReference { field: String, fault: BraceFault, at: usize },
    /// A reference names no field of the section.
    UnknownReference { field: String, reference: String },
    /// A reference names a field that is not a string, integer, float or boolean.
    UnsupportedReferenceType { field: String, reference: String, kind: String },
    /// `field` refers to `reference`, which leads back to `field`.
    CyclicReference { field: String, reference: String },
}

/// `e` is the error that resolving `sec` reports: the checks run in the order of the
/// variants, and the error names a field where the first failing check fails.
pub open spec fn explains(sec: SectionModel, e: ResolveError) -> bool {
    match e {
        ResolveError::ReservedName { field } => is_reserved(field@) && has_field(sec, field@),
        ResolveError::MalformedReference { field, fault, at } => {
            &&& !any_reserved(sec)
            &&& exists|i: int|
                0 <= i < sec.len() && sec[i].0 == field@ && sec[i].1 is Str && #[trigger] scan(
                    sec[i].1->Str_0,
                ) == Err::<Seq<RefModel>, (BraceFault, int)>((fault, at as int))
        },
        ResolveError::UnknownReference { field, reference } => {
            &&& !any_reserved(sec)
            &&& !any_malformed(sec)
            &&& !has_field(sec, reference@)
            &&& exists|i: int, k: int|
                0 <= i < sec.len() && sec[i].0 == field@ && 0 <= k < field_refs(sec, i).len()
                    && #[trigger] field_refs(sec, i)[k].name == reference@
        },
        ResolveError::UnsupportedReferenceType { field, reference, kind } => {
            &&& !any_reserved(sec)
            &&& !any_malformed(sec)
            &&& refs_known(sec)
            &&& has_field(sec, reference@)
            &&& sec[index_of(sec, reference@)].1 == ValueModel::Other(kind@)
            &&& exists|i: int, k: int|
                0 <= i < sec.len() && sec[i].0 == field@ && 0 <= k < field_refs(sec, i).len()
                    && #[trigger] field_refs(sec, i)[k].name == reference@
        },
        ResolveError::CyclicReference { field, reference } => {
            &&& !any_reserved(sec)
            &&& !any_malformed(sec)
            &&& refs_known(sec)
            &&& refs_scalar(sec)
            &&& has_field(sec, field@)
            &&& has_field(sec, reference@)
            &&& has_edge(ref_graph(sec), index_of(sec, field@), index_of(sec, reference@))
            &&& reaches(ref_graph(sec), index_of(sec, reference@), index_of(sec, field@))
        },
    }
}

fn splice_text(raw: &String, refs: &Vec<Reference>, targets: &Vec<usize>, vals: &Vec<Value>) -> (r:
    String)
    requires
        refs_in_order(raw@, ref_views(refs@), 0),
        targets@.len() == refs@.len(),
        forall|m: int| 0 <= m < targets@.len() ==> #[trigger] targets@[m] < vals@.len(),
    ensures
        r@ == splice(
            raw@,
            ref_views(refs@),
            Seq::new(refs@.len(), |m: int| render(vals@[targets@[m] as int]@)),
        ),
{
    let ghost rv = ref_views(refs@);
    let ghost texts = Seq::new(refs@.len(), |m: int| render(vals@[targets@[m] as int]@));
    let len = raw.as_str().unicode_len();
    let mut out = String::new();
    let mut from: usize = 0;
    let mut m: usize = 0;
    while m < refs.len()
        invariant
            m <= refs@.len(),
            len == raw@.len(),
            rv == ref_views(refs@),
            refs_in_order(raw@, rv, 0),
            texts == Seq::new(refs@.len(), |m: int| render(vals@[targets@[m] as int]@)),
            targets@.len() == refs@.len(),
            forall|m: int| 0 <= m < targets@.len() ==> #[trigger] targets@[m] < vals@.len(),
            from == gap_start(rv, m as int),
            out@ == spliced_prefix(raw@, rv, texts, m as int),
        decreases refs@.len() - m,
    {
        let r = &refs[m];
        assert(rv[m as int] == r@);
        assert(gap_start(rv, m as int) <= rv[m as int].start && rv[m as int].start < rv[m as int].end <= raw@.len());
        out.append(raw.as_str().substring_char(from, r.start));
        vals[targets[m]].render_into(&mut out);
        assert(texts[m as int] == render(vals@[targets@[m as int] as int]@));
        from = r.end;
        m += 1;
    }
    if m > 0 {
        assert(rv[m - 1] == refs@[m - 1]@);
        assert(rv[m - 1].end <= raw@.len());
    }
    out.append(raw.as_str().substring_char(from, len));
    out
}

fn check_names(section: &Section) -> (r: Result<(), ResolveError>)
    ensures
        r is Ok <==> !any_reserved(section@),
        r matches Err(e) ==> explains(section@, e) && e is ReservedName,
{
    let ghost sec = section@;
    let mut i: usize = 0;
    while i < section.fields.len()
        invariant
            sec == section@,
            i <= sec.len(),
            forall|j: int| 0 <= j < i ==> !is_reserved(#[trigger] sec[j].0),
        decreases sec.len() - i,
    {
        if is_reserved_name(&section.fields[i].name) {
            assert(is_reserved(sec[i as int].0));
            return Err(ResolveError::ReservedName { field: section.fields[i].name.clone() });
        }
        i += 1;
    }
    Ok(())
}

fn scan_fields(section: &Section) -> (r: Result<Vec<Vec<Reference>>, ResolveError>)
    requires
        !any_reserved(section@),
    ensures
        r is Ok <==> !any_malformed(section@),
        r matches Ok(all) ==> all@.len() == section@.len() && forall|i: int|
            0 <= i < section@.len() ==> ref_views(#[trigger] all@[i]@) == field_refs(section@, i),
        r matches Err(e) ==> explains(section@, e) && e is MalformedReference,
{
    let ghost sec = section@;
    let mut all: Vec<Vec<Reference>> = Vec::new();
    let mut i: usize = 0;
    while i < section.fields.len()
        invariant
            sec == section@,
            !any_reserved(sec),
            i <= sec.len(),
            all@.len() == i,
            forall|j: int| 0 <= j < i ==> !#[trigger] malformed_at(sec, j),
            forall|j: int| 0 <= j < i ==> ref_views(#[trigger] all@[j]@) == field_refs(sec, j),
        decreases sec.len() - i,
    {
        match &section.fields[i].value {
            Value::String(s) => match scan_references(s.as_str()) {
                Ok(refs) => {
                    all.push(refs);
                },
                Err(e) => {
                    assert(sec[i as int].1 == ValueModel::Str(s@));
                    assert(scan(sec[i as int].1->Str_0) == Err::<Seq<RefModel>, (BraceFault, int)>(
                        (e.fault, e.at as int),
                    ));
                    assert(malformed_at(sec, i as int));
                    let err = ResolveError::MalformedReference {
                        field: section.fields[i].name.clone(),
                        fault: e.fault,
                        at: e.at,
                    };
                    assert(explains(sec, err));
                    return Err(err);
                },
            },
            _ => {
                let none: Vec<Reference> = Vec::new();
                assert(ref_views(none@) =~= field_refs(sec, i as int));
                all.push(none);
            },
        }
        i += 1;
    }
    Ok(all)
}

fn link_references(section: &Section, all: &Vec<Vec<Reference>>) -> (r: Result<
    Vec<Vec<usize>>,
    ResolveError,
>)
    requires
        section.wf(),
        !any_reserved(section@),
        !any_malformed(section@),
        all@.len() == section@.len(),
        forall|i: int| 0 <= i < section@.len() ==> ref_views(#[trigger] all@[i]@) == field_refs(section@, i),
    ensures
        r is Ok <==> refs_known(section@),
        r matches Ok(targets) ==> graph_view(&targets) == ref_graph(section@) && edges_in_range(
            ref_graph(section@),
        ),
        r matches Err(e) ==> explains(section@, e) && e is UnknownReference,
{
    let ghost sec = section@;
    let n = section.fields.len();
    let mut targets: Vec<Vec<usize>> = Vec::new();
    let mut i: usize = 0;
    while i < n
        invariant
            sec == section@,
            names_distinct(sec),
            !any_reserved(sec),
            !any_malformed(sec),
            n == sec.len(),
            all@.len() == n,
            forall|i: int| 0 <= i < n ==> ref_views(#[trigger] all@[i]@) == field_refs(sec, i),
            i <= n,
            targets@.len() == i,
            forall|j: int| 0 <= j < i ==> (#[trigger] targets@[j])@.map_values(|w: usize| w as int) == ref_graph(sec)[j],
            forall|j: int, k: int|
                0 <= j < i && 0 <= k < field_refs(sec, j).len() ==> has_field(sec, #[trigger] field_refs(sec, j)[k].name),
            forall|j: int, k: int| 0 <= j < i && 0 <= k < targets@[j]@.len() ==> #[trigger] targets@[j]@[k] < n,
        decreases n - i,
    {
        let refs = &all[i];
        let mut row: Vec<usize> = Vec::new();
        let mut k: usize = 0;
        while k < refs.len()
            invariant
                sec == section@,
                names_distinct(sec),
                !any_reserved(sec),
                !any_malformed(sec),
                n == sec.len(),
                i < n,
                refs == &all@[i as int],
                ref_views(refs@) == field_refs(sec, i as int),
                k <= refs@.len(),
                row@.len() == k,
                forall|kk: int|
                    0 <= kk < k ==> #[trigger] row@[kk] < n && row@[kk] as int == index_of(sec, field_refs(sec, i as int)[kk].name)
                        && has_field(sec, field_refs(sec, i as int)[kk].name),
            decreases refs@.len() - k,
        {
            assert(ref_views(refs@)[k as int] == refs@[k as int]@);
            match section.position(&refs[k].name) {
                Some(t) => {
                    proof {
                        lemma_index_of(sec, t as int);
                        assert(sec[t as int].0 == field_refs(sec, i as int)[k as int].name);
                        assert(has_field(sec, field_refs(sec, i as int)[k as int].name));
                    }
                    row.push(t);
                },
                None => {
                    assert(field_refs(sec, i as int)[k as int].name == refs@[k as int].name@);
                    assert(!refs_known(sec));
                    let err = ResolveError::UnknownReference {
                        field: section.fields[i].name.clone(),
                        reference: refs[k].name.clone(),
                    };
                    assert(explains(sec, err));
                    return Err(err);
                },
            }
            k += 1;
        }
        assert(row@.map_values(|w: usize| w as int) =~= ref_graph(sec)[i as int]);
        assert forall|kk: int| 0 <= kk < field_refs(sec, i as int).len() implies has_field(
            sec,
            #[trigger] field_refs(sec, i as int)[kk].name,
        ) by {
            assert(row@[kk] < n);
        };
        targets.push(row);
        i += 1;
    }
    assert(graph_view(&targets) =~= ref_graph(sec));
    Ok(targets)
}

fn check_targets(section: &Section, targets: &Vec<Vec<usize>>) -> (r: Result<(), ResolveError>)
    requires
        section.wf(),
        !any_reserved(section@),
        !any_malformed(section@),
        refs_known(section@),
        graph_view(targets) == ref_graph(section@),
    ensures
        r is Ok <==> refs_scalar(section@),
        r matches Err(e) ==> explains(section@, e) && e is UnsupportedReferenceType,
{
    let ghost sec = section@;
    let n = section.fields.len();
    assert(graph_view(targets).len() == targets@.len());
    assert(ref_graph(sec).len() == n);
    let mut i: usize = 0;
    while i < n
        invariant
            sec == section@,
            names_distinct(sec),
            !any_reserved(sec),
            !any_malformed(sec),
            refs_known(sec),
            graph_view(targets) == ref_graph(sec),
            n == sec.len(),
            targets@.len() == n,
            i <= n,
            forall|j: int, k: int|
                0 <= j < i && 0 <= k < field_refs(sec, j).len() ==> is_scalar(
                    sec[index_of(sec, #[trigger] field_refs(sec, j)[k].name)].1,
                ),
        decreases n - i,
    {
        let row = &targets[i];
        assert(graph_view(targets)[i as int] == ref_graph(sec)[i as int]);
        assert(graph_view(targets)[i as int] == row@.map_values(|w: usize| w as int));
        assert(row@.map_values(|w: usize| w as int).len() == row@.len());
        assert(field_refs(sec, i as int).map_values(|r: RefModel| index_of(sec, r.name)).len()
            == field_refs(sec, i as int).len());
        assert(ref_graph(sec)[i as int] == field_refs(sec, i as int).map_values(
            |r: RefModel| index_of(sec, r.name),
        ));
        let mut k: usize = 0;
        while k < row.len()
            invariant
                sec == section@,
                names_distinct(sec),
                !any_reserved(sec),
                !any_malformed(sec),
                refs_known(sec),
                n == sec.len(),
                i < n,
                row@.map_values(|w: usize| w as int) == ref_graph(sec)[i as int],
                ref_graph(sec)[i as int] == field_refs(sec, i as int).map_values(
                    |r: RefModel| index_of(sec, r.name),
                ),
                k <= row@.len(),
                row@.len() == field_refs(sec, i as int).len(),
                forall|kk: int|
                    0 <= kk < k ==> is_scalar(
                        sec[index_of(sec, #[trigger] field_refs(sec, i as int)[kk].name)].1,
                    ),
            decreases row@.len() - k,
        {
            let t = row[k];
            assert(row@.map_values(|w: usize| w as int)[k as int] == t as int);
            let ghost name = field_refs(sec, i as int)[k as int].name;
            assert(field_refs(sec, i as int).map_values(|r: RefModel| index_of(sec, r.name))[k as int]
                == index_of(sec, name));
            assert(ref_graph(sec)[i as int][k as int] == index_of(sec, name));
            assert(has_field(sec, name));
            assert(t as int == index_of(sec, name));
            assert(sec[t as int].0 == name);
            match &section.fields[t].value {
                Value::Other(kind) => {
                    assert(!refs_scalar(sec));
                    let err = ResolveError::UnsupportedReferenceType {
                        field: section.fields[i].name.clone(),
                        reference: section.fields[t].name.clone(),
                        kind: kind.clone(),
                    };
                    assert(explains(sec, err));
                    return Err(err);
                },
                _ => {},
            }
            k += 1;
        }
        i += 1;
    }
    Ok(())
}

pub open spec fn value_views(vals: Seq<Value>) -> Seq<ValueModel> {
    vals.map_values(|v: Value| v@)
}

/// Two assignments of values that agree on the targets of field `i` resolve it alike.
proof fn lemma_texts_agree(sec: SectionModel, v0: Seq<ValueModel>, v1: Seq<ValueModel>, i: int)
    requires
        0 <= i < sec.len(),
        forall|m: int|
            0 <= m < field_refs(sec, i).len() ==> v0[index_of(sec, #[trigger] field_refs(sec, i)[m].name)]
                == v1[index_of(sec, field_refs(sec, i)[m].name)],
    ensures
        resolved_value(sec, v0, i) == resolved_value(sec, v1, i),
{
    assert(ref_texts(sec, v0, i) =~= ref_texts(sec, v1, i));
}

fn substitute(
    section: &Section,
    all: &Vec<Vec<Reference>>,
    targets: &Vec<Vec<usize>>,
    order: &Vec<usize>,
    pos: &Vec<usize>,
) -> (out: Vec<Value>)
    requires
        refs_known(section@),
        all@.len() == section@.len(),
        forall|i: int| 0 <= i < section@.len() ==> ref_views(#[trigger] all@[i]@) == field_refs(section@, i),
        graph_view(targets) == ref_graph(section@),
        edges_in_range(ref_graph(section@)),
        is_topological(ref_graph(section@), order@, pos@),
    ensures
        out@.len() == section@.len(),
        forall|u: int|
            0 <= u < section@.len() ==> (#[trigger] out@[u])@ == resolved_value(section@, value_views(out@), u),
{
    let ghost sec = section@;
    let ghost g = ref_graph(sec);
    let n = section.fields.len();
    let mut out: Vec<Value> = Vec::new();
    let mut i: usize = 0;
    while i < n
        invariant
            sec == section@,
            n == sec.len(),
            i <= n,
            out@.len() == i,
            forall|j: int| 0 <= j < i ==> (#[trigger] out@[j])@ == sec[j].1,
        decreases n - i,
    {
        out.push(section.fields[i].value.duplicate());
        i += 1;
    }
    let mut k: usize = 0;
    while k < order.len()
        invariant
            sec == section@,
            g == ref_graph(sec),
            n == sec.len(),
            refs_known(sec),
            all@.len() == n,
            forall|i: int| 0 <= i < n ==> ref_views(#[trigger] all@[i]@) == field_refs(sec, i),
            graph_view(targets) == g,
            edges_in_range(g),
            is_topological(g, order@, pos@),
            k <= order@.len(),
            out@.len() == n,
            forall|u: int|
                0 <= u < n ==> (pos@[u] < k ==> (#[trigger] out@[u])@ == resolved_value(sec, value_views(out@), u))
                    && (pos@[u] >= k ==> out@[u]@ == sec[u].1),
        decreases order@.len() - k,
    {
        let u = order[k];
        let ghost v0 = value_views(out@);
        assert(graph_view(targets).len() == targets@.len());
        assert(pos@[u as int] == k);
        assert forall|m: int| 0 <= m < g[u as int].len() implies pos@[#[trigger] g[u as int][m]] < k by {
            assert(pos@[g[u as int][m]] < pos@[u as int]);
        };
        match &section.fields[u].value {
            Value::String(s) => {
                let refs = &all[u];
                let row = &targets[u];
                assert(graph_view(targets)[u as int] == g[u as int]);
                assert(g[u as int] == field_refs(sec, u as int).map_values(
                    |r: RefModel| index_of(sec, r.name),
                ));
                assert(row@.len() == g[u as int].len());
                assert(ref_views(refs@) == field_refs(sec, u as int));
                proof {
                    assert(sec[u as int].1 == ValueModel::Str(s@));
                    lemma_refs_from_in_order(s@, 0);
                    assert forall|m: int| 0 <= m < row@.len() implies #[trigger] row@[m] < out@.len() by {
                        assert(g[u as int][m] == row@[m] as int);
                    };
                }
                let ghost out0 = out@;
                let text = splice_text(s, refs, row, &out);
                proof {
                    let texts = Seq::new(refs@.len(), |m: int| render(out0[row@[m] as int]@));
                    assert(texts =~= ref_texts(sec, v0, u as int)) by {
                        assert forall|m: int| 0 <= m < refs@.len() implies #[trigger] texts[m] == ref_texts(sec, v0, u as int)[m] by {
                            assert(g[u as int][m] == row@[m] as int);
                            assert(v0[row@[m] as int] == out0[row@[m] as int]@);
                        };
                    };
                    assert(text@ == splice(s@, field_refs(sec, u as int), ref_texts(sec, v0, u as int)));
                }
                out[u] = Value::String(text);
                proof {
                    let v1 = value_views(out@);
                    assert forall|w: int| 0 <= w < n && w != u implies #[trigger] v1[w] == v0[w] by {};
                    assert forall|m: int| 0 <= m < field_refs(sec, u as int).len() implies v0[index_of(sec, #[trigger] field_refs(sec, u as int)[m].name)]
                        == v1[index_of(sec, field_refs(sec, u as int)[m].name)] by {
                        assert(g[u as int][m] == index_of(sec, field_refs(sec, u as int)[m].name));
                        assert(pos@[g[u as int][m]] < k);
                    };
                    lemma_texts_agree(sec, v0, v1, u as int);
                    assert(out@[u as int]@ == resolved_value(sec, v1, u as int));
                    assert forall|u2: int| 0 <= u2 < n implies (pos@[u2] < k + 1 ==> (#[trigger] out@[u2])@ == resolved_value(sec, v1, u2))
                        && (pos@[u2] >= k + 1 ==> out@[u2]@ == sec[u2].1) by {
                        if u2 != u {
                            assert(pos@[u2] != k);
                            if pos@[u2] < k {
                                assert forall|m: int| 0 <= m < field_refs(sec, u2).len() implies v0[index_of(sec, #[trigger] field_refs(sec, u2)[m].name)]
                                    == v1[index_of(sec, field_refs(sec, u2)[m].name)] by {
                                    assert(g[u2][m] == index_of(sec, field_refs(sec, u2)[m].name));
                                    assert(pos@[g[u2][m]] < pos@[u2]);
                                };
                                lemma_texts_agree(sec, v0, v1, u2);
                            }
                        }
                    };
                }
            },
            _ => {
                assert(out@[u as int]@ == resolved_value(sec, v0, u as int));
            },
        }
        k += 1;
    }
    assert forall|u: int| 0 <= u < n implies (#[trigger] out@[u])@ == resolved_value(sec, value_views(out@), u) by {
        assert(pos@[u] < order@.len());
    };
    out
}

/// Resolves a section in place: every reference in a string field is replaced by the
/// rendered value of the field it names, after the fields that one refers to are resolved
/// themselves.
///
/// Succeeds exactly when the section is resolvable; on failure the section is left as it
/// was and the error says which check failed first, and where.
pub fn resolve(section: &mut Section) -> (r: Result<(), ResolveError>)
    requires
        old(section).wf(),
    ensures
        r is Ok <==> resolvable(old(section)@),
        r is Ok ==> resolves_to(old(section)@, final(section)@),
        r matches Err(e) ==> explains(old(section)@, e) && final(section)@ == old(section)@,
        (r matches Err(ResolveError::ReservedName { .. })) <==> any_reserved(old(section)@),
        (r matches Err(ResolveError::MalformedReference { .. })) <==> !any_reserved(old(section)@)
            && any_malformed(old(section)@),
        (r matches Err(ResolveError::UnknownReference { .. })) <==> !any_reserved(old(section)@)
            && !any_malformed(old(section)@) && !refs_known(old(section)@),
        (r matches Err(ResolveError::UnsupportedReferenceType { .. })) <==> !any_reserved(
            old(section)@,
        ) && !any_malformed(old(section)@) && refs_known(old(section)@) && !refs_scalar(
            old(section)@,
        ),
        (r matches Err(ResolveError::CyclicReference { .. })) <==> !any_reserved(old(section)@)
            && !any_malformed(old(section)@) && refs_known(old(section)@) && refs_scalar(
            old(section)@,
        ) && !acyclic(ref_graph(old(section)@)),
        final(section).wf(),
{
    let ghost sec = section@;
    check_names(section)?;
    let all = scan_fields(section)?;
    let targets = link_references(section, &all)?;
    check_targets(section, &targets)?;
    let (order, pos) = match topological_order(&targets) {
        Ok(found) => found,
        Err((a, b)) => {
            proof {
                lemma_index_of(sec, a as int);
                lemma_index_of(sec, b as int);
            }
            let err = ResolveError::CyclicReference {
                field: section.fields[a].name.clone(),
                reference: section.fields[b].name.clone(),
            };
            assert(explains(sec, err));
            return Err(err);
        },
    };
    let out = substitute(section, &all, &targets, &order, &pos);
    let n = section.fields.len();
    let mut fields: Vec<Field> = Vec::new();
    let mut i: usize = 0;
    while i < n
        invariant
            sec == section@,
            n == sec.len(),
            out@.len() == n,
            i <= n,
            fields@.len() == i,
            forall|j: int|
                0 <= j < i ==> (#[trigger] fields@[j]).name@ == sec[j].0 && fields@[j].value@ == out@[j]@,
        decreases n - i,
    {
        fields.push(Field { name: section.fields[i].name.clone(), value: out[i].duplicate() });
        i += 1;
    }
    section.fields = fields;
    proof {
        let fin = section@;
        assert(values_of(fin) =~= value_views(out@));
        assert forall|j: int| 0 <= j < sec.len() implies #[trigger] fin[j] == (sec[j].0, resolved_value(sec, values_of(fin), j)) by {
            assert(fin[j] == (fields@[j].name@, fields@[j].value@));
        };
        assert forall|a: int, b: int| 0 <= a < fin.len() && 0 <= b < fin.len() && a != b implies fin[a].0 != fin[b].0 by {
            assert(fin[a].0 == sec[a].0);
            assert(fin[b].0 == sec[b].0);
        };
    }
    Ok(())
}

} // verus!
