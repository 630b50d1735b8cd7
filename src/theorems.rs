use vstd::prelude::*;
use crate::graph::{acyclic, edges_in_range, is_path, lemma_closed_path_is_cyclic, ranked};
use crate::resolve::{
    any_malformed, any_reserved, field_refs, gap_start, ref_graph, ref_texts, resolvable,
    resolved_value, resolves_to, refs_known, refs_scalar, splice, spliced_prefix, values_of,
};
use crate::scan::{refs_from, refs_in_name, scan, BraceFault, RefModel};
use crate::section::{has_field, index_of, lemma_index_of, names_distinct, SectionModel};
use crate::value::{render, ValueModel};

verus! {

/// Replacing no references leaves a string as it is.
proof fn lemma_splice_nothing(raw: Seq<char>, texts: Seq<Seq<char>>)
    ensures
        splice(raw, Seq::<RefModel>::empty(), texts) == raw,
{
    assert(spliced_prefix(raw, Seq::<RefModel>::empty(), texts, 0) == Seq::<char>::empty());
    assert(gap_start(Seq::<RefModel>::empty(), 0) == 0);
    assert(Seq::<char>::empty() + raw.subrange(0, raw.len() as int) =~= raw);
}

/// A section where no string holds a reference, and no name is reserved, is resolvable,
/// and resolving it changes nothing.
pub proof fn lemma_no_references_is_identity(sec: SectionModel, out: SectionModel)
    requires
        names_distinct(sec),
        !any_reserved(sec),
        forall|i: int|
            0 <= i < sec.len() && (#[trigger] sec[i]).1 is Str ==> scan(sec[i].1->Str_0) == Ok::<
                Seq<RefModel>,
                (BraceFault, int),
            >(Seq::empty()),
    ensures
        resolvable(sec),
        resolves_to(sec, out) ==> out == sec,
{
    let g = ref_graph(sec);
    assert forall|i: int| 0 <= i < sec.len() implies (#[trigger] field_refs(sec, i)).len() == 0 by {
        assert(sec[i] == sec[i]);
    };
    assert(!any_malformed(sec)) by {
        if any_malformed(sec) {
            let i = choose|i: int| 0 <= i < sec.len() && #[trigger] crate::resolve::malformed_at(sec, i);
            assert(sec[i] == sec[i]);
        }
    };
    let rank = Seq::new(sec.len(), |i: int| 0nat);
    assert forall|u: int, j: int| 0 <= u < g.len() && 0 <= j < g[u].len() implies #[trigger] rank[g[u][j]] < rank[u] by {
        assert(field_refs(sec, u).len() == 0);
    };
    assert(ranked(g, rank));
    if resolves_to(sec, out) {
        assert forall|i: int| 0 <= i < sec.len() implies #[trigger] out[i] == sec[i] by {
            assert(field_refs(sec, i).len() == 0);
            assert(field_refs(sec, i) =~= Seq::<RefModel>::empty());
            if sec[i].1 is Str {
                lemma_splice_nothing(sec[i].1->Str_0, ref_texts(sec, values_of(out), i));
            }
        };
        assert(out =~= sec);
    }
}

/// Where field `i` holds a reference to field `t`, `t` is a field of lower rank.
proof fn lemma_target_rank(sec: SectionModel, rank: Seq<nat>, i: int, m: int)
    requires
        refs_known(sec),
        ranked(ref_graph(sec), rank),
        0 <= i < sec.len(),
        0 <= m < field_refs(sec, i).len(),
    ensures
        0 <= index_of(sec, field_refs(sec, i)[m].name) < sec.len(),
        rank[index_of(sec, field_refs(sec, i)[m].name)] < rank[i],
{
    let g = ref_graph(sec);
    let name = field_refs(sec, i)[m].name;
    assert(has_field(sec, name));
    assert(g[i][m] == index_of(sec, name));
}

proof fn lemma_agree_at(sec: SectionModel, out1: SectionModel, out2: SectionModel, rank: Seq<nat>, i: int)
    requires
        refs_known(sec),
        ranked(ref_graph(sec), rank),
        resolves_to(sec, out1),
        resolves_to(sec, out2),
        0 <= i < sec.len(),
    ensures
        out1[i] == out2[i],
    decreases rank[i],
{
    let v1 = values_of(out1);
    let v2 = values_of(out2);
    assert forall|m: int| 0 <= m < field_refs(sec, i).len() implies v1[index_of(sec, #[trigger] field_refs(sec, i)[m].name)]
        == v2[index_of(sec, field_refs(sec, i)[m].name)] by {
        lemma_target_rank(sec, rank, i, m);
        lemma_agree_at(sec, out1, out2, rank, index_of(sec, field_refs(sec, i)[m].name));
    };
    assert(ref_texts(sec, v1, i) =~= ref_texts(sec, v2, i));
    assert(out1[i] == (sec[i].0, resolved_value(sec, v1, i)));
    assert(out2[i] == (sec[i].0, resolved_value(sec, v2, i)));
}

/// A resolvable section has exactly one resolution: whatever order the fields are
/// resolved in, the resulting section is the same.
pub proof fn lemma_resolution_is_unique(sec: SectionModel, out1: SectionModel, out2: SectionModel)
    requires
        resolvable(sec),
        resolves_to(sec, out1),
        resolves_to(sec, out2),
    ensures
        out1 == out2,
{
    let rank = choose|rank: Seq<nat>| ranked(ref_graph(sec), rank);
    assert forall|i: int| 0 <= i < sec.len() implies #[trigger] out1[i] == out2[i] by {
        lemma_agree_at(sec, out1, out2, rank, i);
    };
    assert(out1 =~= out2);
}

proof fn lemma_name_skipped(s: Seq<char>, open: int, k: int, stop: int)
    requires
        0 <= k <= stop <= s.len(),
        forall|x: int| k <= x < stop ==> #[trigger] s[x] != '{' && s[x] != '}',
    ensures
        refs_in_name(s, open, k) == refs_in_name(s, open, stop),
    decreases stop - k,
{
    if k < stop {
        lemma_name_skipped(s, open, k + 1, stop);
    }
}

/// A string that is a single reference `{name}` scans to that one reference.
pub proof fn lemma_scan_single_reference(name: Seq<char>)
    requires
        name.len() > 0,
        forall|x: int| 0 <= x < name.len() ==> #[trigger] name[x] != '{' && name[x] != '}',
    ensures
        scan(seq!['{'] + name + seq!['}']) == Ok::<Seq<RefModel>, (BraceFault, int)>(
            seq![RefModel { name, start: 0, end: name.len() + 2int }],
        ),
{
    let s = seq!['{'] + name + seq!['}'];
    let stop: int = name.len() + 1int;
    assert forall|x: int| 1 <= x < stop implies #[trigger] s[x] != '{' && s[x] != '}' by {
        assert(s[x] == name[x - 1]);
    };
    lemma_name_skipped(s, 0, 1, stop);
    assert(s[stop] == '}');
    assert(s.subrange(1, stop) =~= name);
    assert(refs_from(s, stop + 1) == Ok::<Seq<RefModel>, (BraceFault, int)>(Seq::empty()));
    assert(seq![RefModel { name, start: 0, end: name.len() + 2int }] + Seq::<RefModel>::empty() =~= seq![
        RefModel { name, start: 0, end: name.len() + 2int },
    ]);
}

/// A field that is exactly one reference to field `j` resolves to the canonical text of
/// `j`'s resolved value; a field that is not a string is never changed.
pub proof fn lemma_reference_renders_target(sec: SectionModel, out: SectionModel, i: int, j: int)
    requires
        names_distinct(sec),
        resolves_to(sec, out),
        0 <= i < sec.len(),
        0 <= j < sec.len(),
        sec[j].0.len() > 0,
        forall|x: int| 0 <= x < sec[j].0.len() ==> #[trigger] sec[j].0[x] != '{' && sec[j].0[x] != '}',
        sec[i].1 == ValueModel::Str(seq!['{'] + sec[j].0 + seq!['}']),
    ensures
        out[i].1 == ValueModel::Str(render(out[j].1)),
        !(sec[j].1 is Str) ==> out[j].1 == sec[j].1,
{
    let name = sec[j].0;
    let raw = seq!['{'] + name + seq!['}'];
    let r = RefModel { name, start: 0, end: name.len() + 2int };
    lemma_scan_single_reference(name);
    lemma_index_of(sec, j);
    assert(field_refs(sec, i) == seq![r]);
    let texts = ref_texts(sec, values_of(out), i);
    assert(texts =~= seq![render(out[j].1)]);
    assert(spliced_prefix(raw, seq![r], texts, 1) =~= raw.subrange(0, 0) + render(out[j].1)) by {
        assert(spliced_prefix(raw, seq![r], texts, 0) == Seq::<char>::empty());
    };
    assert(splice(raw, seq![r], texts) =~= render(out[j].1));
    assert(out[i] == (sec[i].0, resolved_value(sec, values_of(out), i)));
    assert(out[j] == (sec[j].0, resolved_value(sec, values_of(out), j)));
}

/// A reference to a field that is not a string, integer, float or boolean makes the
/// section unresolvable.
pub proof fn lemma_non_scalar_target_unresolvable(sec: SectionModel, i: int, m: int)
    requires
        0 <= i < sec.len(),
        0 <= m < field_refs(sec, i).len(),
        has_field(sec, field_refs(sec, i)[m].name),
        sec[index_of(sec, field_refs(sec, i)[m].name)].1 is Other,
    ensures
        !refs_scalar(sec),
        !resolvable(sec),
{
}

/// A chain of references that returns to the field it started from, a field referring to
/// itself included, makes the section unresolvable.
pub proof fn lemma_reference_cycle_unresolvable(sec: SectionModel, p: Seq<int>)
    requires
        refs_known(sec),
        is_path(ref_graph(sec), p),
        p.len() >= 2,
        0 <= p[0] < sec.len(),
        p[0] == p.last(),
    ensures
        !acyclic(ref_graph(sec)),
        !resolvable(sec),
{
    let g = ref_graph(sec);
    assert forall|u: int, j: int| 0 <= u < g.len() && 0 <= j < g[u].len() implies 0 <= #[trigger] g[u][j] < g.len() by {
        let name = field_refs(sec, u)[j].name;
        assert(has_field(sec, name));
        assert(g[u][j] == index_of(sec, name));
    };
    assert(edges_in_range(g));
    lemma_closed_path_is_cyclic(g, p);
}

} // verus!
