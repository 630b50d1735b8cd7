use vstd::prelude::*;

verus! {

/// A `{name}` occurrence inside a string value.
///
/// `start` is the offset of the opening brace and `end` the offset just past the closing
/// one; offsets count characters.
#[derive(Debug)]
pub struct Reference {
    pub name: String,
    pub start: usize,
    pub end: usize,
}

/// The mathematical model of a `Reference`.
pub struct RefModel {
    pub name: Seq<char>,
    pub start: int,
    pub end: int,
}

impl View for Reference {
    type V = RefModel;

    open spec fn view(&self) -> RefModel {
        RefModel { name: self.name@, start: self.start as int, end: self.end as int }
    }
}

/// Why a string holds no well-formed references.
#[derive(Clone, Copy, Debug, PartialEq, Eq, Structural)]
pub enum BraceFault {
    /// A `{` with no `}` after it.
    Unclosed,
    /// A `{` before the `}` that closes the previous one.
    Nested,
    /// `{}` with nothing between.
    Empty,
}

/// A brace fault and the character offset where it was found.
#[derive(Clone, Copy, Debug, PartialEq, Eq, Structural)]
pub struct BraceError {
    pub fault: BraceFault,
    pub at: usize,
}

pub open spec fn prepend(
    refs: Seq<RefModel>,
    rest: Result<Seq<RefModel>, (BraceFault, int)>,
) -> Result<Seq<RefModel>, (BraceFault, int)> {
    match rest {
        Ok(more) => Ok(refs + more),
        Err(e) => Err(e),
    }
}

/// The references of `s` from offset `k` on, where `k` lies outside any reference.
pub open spec fn refs_from(s: Seq<char>, k: int) -> Result<Seq<RefModel>, (BraceFault, int)>
    decreases s.len() - k,
{
    if k < 0 || k >= s.len() {
        Ok(Seq::empty())
    } else if s[k] == '{' {
        refs_in_name(s, k, k + 1)
    } else {
        refs_from(s, k + 1)
    }
}

/// The references of `s` from offset `k` on, inside a reference opened at `open`.
pub open spec fn refs_in_name(s: Seq<char>, open: int, k: int) -> Result<
    Seq<RefModel>,
    (BraceFault, int),
>
    decreases s.len() - k,
{
    if k < 0 || k >= s.len() {
        Err((BraceFault::Unclosed, open))
    } else if s[k] == '{' {
        Err((BraceFault::Nested, k))
    } else if s[k] == '}' {
        if k == open + 1 {
            Err((BraceFault::Empty, open))
        } else {
            prepend(
                seq![RefModel { name: s.subrange(open + 1, k), start: open, end: k + 1 }],
                refs_from(s, k + 1),
            )
        }
    } else {
        refs_in_name(s, open, k + 1)
    }
}

/// The references that a string holds, in order, or the first brace fault in it.
pub open spec fn scan(s: Seq<char>) -> Result<Seq<RefModel>, (BraceFault, int)> {
    refs_from(s, 0)
}

/// Each reference starts at or after `lo`, or after the end of the one before it, and lies
/// inside `s`.
pub open spec fn refs_in_order(s: Seq<char>, refs: Seq<RefModel>, lo: int) -> bool {
    forall|m: int|
        0 <= m < refs.len() ==> {
            &&& (if m == 0 {
                lo
            } else {
                refs[m - 1].end
            }) <= #[trigger] refs[m].start
            &&& refs[m].start < refs[m].end <= s.len()
        }
}

proof fn lemma_prepend_in_order(s: Seq<char>, first: RefModel, rest: Seq<RefModel>, lo: int)
    requires
        lo <= first.start < first.end <= s.len(),
        refs_in_order(s, rest, first.end),
    ensures
        refs_in_order(s, seq![first] + rest, lo),
{
    let all = seq![first] + rest;
    assert forall|m: int| 0 <= m < all.len() implies {
        &&& (if m == 0 {
            lo
        } else {
            all[m - 1].end
        }) <= #[trigger] all[m].start
        &&& all[m].start < all[m].end <= s.len()
    } by {
        if m > 0 {
            assert(all[m] == rest[m - 1]);
            if m > 1 {
                assert(all[m - 1] == rest[m - 2]);
            }
        }
    };
}

pub proof fn lemma_refs_from_in_order(s: Seq<char>, k: int)
    requires
        0 <= k,
    ensures
        refs_from(s, k) matches Ok(refs) ==> refs_in_order(s, refs, k),
    decreases s.len() - k,
{
    if k < s.len() {
        if s[k] == '{' {
            lemma_refs_in_name_in_order(s, k, k + 1);
        } else {
            lemma_refs_from_in_order(s, k + 1);
        }
    }
}

pub proof fn lemma_refs_in_name_in_order(s: Seq<char>, open: int, k: int)
    requires
        0 <= open < k,
    ensures
        refs_in_name(s, open, k) matches Ok(refs) ==> refs_in_order(s, refs, open),
    decreases s.len() - k,
{
    if k < s.len() && s[k] != '{' {
        if s[k] == '}' {
            if k != open + 1 {
                lemma_refs_from_in_order(s, k + 1);
                if let Ok(rest) = refs_from(s, k + 1) {
                    lemma_prepend_in_order(
                        s,
                        RefModel { name: s.subrange(open + 1, k), start: open, end: k + 1 },
                        rest,
                        open,
                    );
                }
            }
        } else {
            lemma_refs_in_name_in_order(s, open, k + 1);
        }
    }
}

pub open spec fn ref_views(refs: Seq<Reference>) -> Seq<RefModel> {
    refs.map_values(|r: Reference| r@)
}

fn chars_of(s: &str) -> (r: Vec<char>)
    ensures
        r@ == s@,
{
    broadcast use vstd::string::group_string_axioms;

    let mut r: Vec<char> = Vec::new();
    for c in it: s.chars()
        invariant
            r@ == it.seq().take(it.index() as int),
    {
        r.push(c);
    }
    assert(r@ =~= s@);
    r
}

/// Finds the references in `s`: each `{name}` with a non-empty name free of braces.
///
/// Fails on the first `{` that is not closed, on a `{` inside a reference and on `{}`.
pub fn scan_references(s: &str) -> (r: Result<Vec<Reference>, BraceError>)
    ensures
        match r {
            Ok(refs) => scan(s@) == Ok::<Seq<RefModel>, (BraceFault, int)>(ref_views(refs@)),
            Err(e) => scan(s@) == Err::<Seq<RefModel>, (BraceFault, int)>((e.fault, e.at as int)),
        },
{
    let cs = chars_of(s);
    let n = cs.len();
    let mut refs: Vec<Reference> = Vec::new();
    let mut in_ref = false;
    let mut open: usize = 0;
    let mut i: usize = 0;
    while i < n
        invariant
            cs@ == s@,
            n == cs@.len(),
            i <= n,
            in_ref ==> open < i,
            scan(s@) == prepend(
                ref_views(refs@),
                if in_ref {
                    refs_in_name(s@, open as int, i as int)
                } else {
                    refs_from(s@, i as int)
                },
            ),
        decreases n - i,
    {
        let c = cs[i];
        if in_ref {
            if c == '{' {
                return Err(BraceError { fault: BraceFault::Nested, at: i });
            }
            if c == '}' {
                if i == open + 1 {
                    return Err(BraceError { fault: BraceFault::Empty, at: open });
                }
                let name = s.substring_char(open + 1, i).to_owned();
                let ghost before = ref_views(refs@);
                refs.push(Reference { name, start: open, end: i + 1 });
                assert(ref_views(refs@) =~= before + seq![refs@.last()@]);
                proof {
                    let one = seq![refs@.last()@];
                    match refs_from(s@, i + 1) {
                        Ok(more) => {
                            assert(before + (one + more) =~= (before + one) + more);
                        },
                        Err(_) => {},
                    }
                }
                in_ref = false;
            }
        } else if c == '{' {
            in_ref = true;
            open = i;
        }
        i += 1;
    }
    if in_ref {
        return Err(BraceError { fault: BraceFault::Unclosed, at: open });
    }
    assert(ref_views(refs@) + Seq::<RefModel>::empty() =~= ref_views(refs@));
    Ok(refs)
}

} // verus!
