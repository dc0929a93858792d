//! Einstein summation over one or two operands, planned as the view and
//! reduction steps the numeric layer already has: `permute`, `sum`,
//! `reshape` and the batched `matmul`.
//!
//! A spec is the NumPy form with an explicit arrow (`"ij,jk->ik"`,
//! `"ij->ji"`, `"i,i->"`) over lowercase ASCII letters; whitespace is
//! ignored. Each letter names one dimension size. A letter in both
//! operands and not in the output is contracted; one in both and in the
//! output is a batch dimension; one in a single operand and not in the
//! output is summed away first. A letter repeated inside one subscript
//! and an implicit output are refused with a typed error.
use crate::error::{EinsumIssue, Error, Issue};
use crate::index::{is_permutation, numel_of, permuted};
use crate::shape::checked_numel;
use vstd::prelude::*;

verus! {

/// The Unicode White_Space characters (PropList.txt).
pub open spec fn white_space(c: char) -> bool {
    let u = c as u32;
    ||| 0x9 <= u <= 0xd
    ||| u == 0x20
    ||| u == 0x85
    ||| u == 0xa0
    ||| u == 0x1680
    ||| 0x2000 <= u <= 0x200a
    ||| u == 0x2028
    ||| u == 0x2029
    ||| u == 0x202f
    ||| u == 0x205f
    ||| u == 0x3000
}

/// A spec with its whitespace removed.
pub open spec fn compact(s: Seq<char>) -> Seq<char>
    decreases s.len(),
{
    if s.len() == 0 {
        s
    } else if white_space(s.last()) {
        compact(s.drop_last())
    } else {
        compact(s.drop_last()).push(s.last())
    }
}

/// The character lists of a list of subscripts.
pub open spec fn views(v: Seq<Vec<char>>) -> Seq<Seq<char>> {
    Seq::new(v.len(), |k: int| v[k]@)
}

/// `->` starts at position `i`.
pub open spec fn arrow_at(s: Seq<char>, i: int) -> bool {
    0 <= i && i + 1 < s.len() && s[i] == '-' && s[i + 1] == '>'
}

/// `->` first starts at position `i`.
pub open spec fn first_arrow(s: Seq<char>, i: int) -> bool {
    arrow_at(s, i) && forall|j: int| 0 <= j < i ==> !arrow_at(s, j)
}

/// `s` cut at every comma, empty pieces included.
pub open spec fn split_commas(s: Seq<char>) -> Seq<Seq<char>>
    decreases s.len(),
{
    if s.len() == 0 {
        seq![Seq::empty()]
    } else {
        let p = split_commas(s.drop_last());
        if s.last() == ',' {
            p.push(Seq::empty())
        } else {
            p.update(p.len() - 1, p.last().push(s.last()))
        }
    }
}

/// A lowercase ASCII letter.
pub open spec fn lowercase(c: char) -> bool {
    'a' <= c <= 'z'
}

/// A well-formed subscript: lowercase letters, none repeated.
pub open spec fn subscript_ok(g: Seq<char>) -> bool {
    &&& forall|j: int| 0 <= j < g.len() ==> lowercase(#[trigger] g[j])
    &&& g.no_duplicates()
}

/// `j` is the first position of `g` that is not a lowercase letter.
pub open spec fn first_nonletter(g: Seq<char>, j: int) -> bool {
    &&& 0 <= j < g.len()
    &&& !lowercase(g[j])
    &&& forall|i: int| 0 <= i < j ==> lowercase(#[trigger] g[i])
}

/// `j` is the first position of `g` whose letter occurred before it.
pub open spec fn first_repeat(g: Seq<char>, j: int) -> bool {
    &&& 0 <= j < g.len()
    &&& g.take(j).contains(g[j])
    &&& forall|i: int| 0 <= i < j ==> !(#[trigger] g.take(i)).contains(g[i])
}

/// How a malformed subscript is reported: its first non-letter, or, when
/// every character is a letter, its first repeated letter.
pub open spec fn reports_subscript(g: Seq<char>, issue: EinsumIssue) -> bool {
    match issue {
        EinsumIssue::NotALetter { letter } => exists|j: int| first_nonletter(g, j) && g[j] == letter,
        EinsumIssue::RepeatedLetter { letter } => (forall|j: int|
            0 <= j < g.len() ==> lowercase(#[trigger] g[j])) && exists|j: int|
            first_repeat(g, j) && g[j] == letter,
        _ => false,
    }
}

/// `c` is a letter of some input subscript.
pub open spec fn in_some(inputs: Seq<Seq<char>>, c: char) -> bool {
    exists|k: int| 0 <= k < inputs.len() && (#[trigger] inputs[k]).contains(c)
}

/// The parsed form of a compact spec whose first arrow is at `i`: the
/// input subscripts and the output subscript.
pub open spec fn parsed(c: Seq<char>, i: int) -> (Seq<Seq<char>>, Seq<char>) {
    (split_commas(c.take(i)), c.skip(i + 2))
}

/// The subscripts checked in turn: every input, then the output.
pub open spec fn all_subscripts(c: Seq<char>, i: int) -> Seq<Seq<char>> {
    parsed(c, i).0.push(parsed(c, i).1)
}

/// Whether `c` has the Unicode White_Space property, as
/// `char::is_whitespace` decides it.
fn is_whitespace(c: char) -> (r: bool)
    ensures
        r == white_space(c),
{
    ('\u{9}' <= c && c <= '\u{d}') || c == ' ' || c == '\u{85}' || c == '\u{a0}' || c == '\u{1680}'
        || ('\u{2000}' <= c && c <= '\u{200a}') || c == '\u{2028}' || c == '\u{2029}' || c
        == '\u{202f}' || c == '\u{205f}' || c == '\u{3000}'
}

/// The characters of `s`, in order.
fn chars_of(s: &str) -> (r: Vec<char>)
    ensures
        r@ == s@,
{
    broadcast use vstd::string::axiom_spec_iter;

    let mut v: Vec<char> = Vec::new();
    for c in it: s.chars()
        invariant
            v@ == it.seq().take(it.index() as int),
            it.seq() == s@,
    {
        v.push(c);
    }
    v
}

/// The characters of `s` that are not whitespace, in order.
fn strip_whitespace(s: &str) -> (r: Vec<char>)
    ensures
        r@ == compact(s@),
{
    let all = chars_of(s);
    let mut v: Vec<char> = Vec::new();
    let mut i: usize = 0;
    while i < all.len()
        invariant
            i <= all@.len(),
            all@ == s@,
            v@ == compact(all@.take(i as int)),
        decreases all.len() - i,
    {
        let c = all[i];
        assert(all@.take(i + 1).drop_last() =~= all@.take(i as int));
        if !is_whitespace(c) {
            v.push(c);
        }
        i += 1;
    }
    assert(all@.take(all@.len() as int) =~= all@);
    v
}

/// The position of the first `->`, if any.
fn find_arrow(s: &[char]) -> (r: Option<usize>)
    ensures
        r matches Some(i) ==> first_arrow(s@, i as int),
        r is None ==> forall|j: int| !arrow_at(s@, j),
{
    let n = s.len();
    if n < 2 {
        return None;
    }
    let mut i: usize = 0;
    while i < n - 1
        invariant
            n == s@.len(),
            n >= 2,
            i <= n - 1,
            forall|j: int| 0 <= j < i ==> !arrow_at(s@, j),
        decreases n - i,
    {
        if s[i] == '-' && s[i + 1] == '>' {
            return Some(i);
        }
        i += 1;
    }
    None
}

/// `s[lo..hi]`.
fn sub_chars(s: &[char], lo: usize, hi: usize) -> (r: Vec<char>)
    requires
        lo <= hi <= s@.len(),
    ensures
        r@ == s@.subrange(lo as int, hi as int),
{
    let mut out: Vec<char> = Vec::new();
    let mut i: usize = lo;
    while i < hi
        invariant
            lo <= i <= hi <= s@.len(),
            out@ =~= s@.subrange(lo as int, i as int),
        decreases hi - i,
    {
        out.push(s[i]);
        i += 1;
    }
    out
}

/// Every piece of a comma split is non-empty as a list.
proof fn lemma_split_nonempty(s: Seq<char>)
    ensures
        split_commas(s).len() >= 1,
    decreases s.len(),
{
    if s.len() > 0 {
        lemma_split_nonempty(s.drop_last());
    }
}

/// `s` cut at every comma.
fn split_at_commas(s: &[char]) -> (r: Vec<Vec<char>>)
    ensures
        views(r@) == split_commas(s@),
{
    let mut pieces: Vec<Vec<char>> = Vec::new();
    let mut cur: Vec<char> = Vec::new();
    let mut i: usize = 0;
    while i < s.len()
        invariant
            i <= s@.len(),
            views(pieces@).push(cur@) == split_commas(s@.take(i as int)),
        decreases s.len() - i,
    {
        let c = s[i];
        let ghost before = views(pieces@).push(cur@);
        let ghost old_pieces = views(pieces@);
        assert(s@.take(i + 1).drop_last() =~= s@.take(i as int));
        assert(s@.take(i + 1).last() == c);
        if c == ',' {
            let done = cur;
            pieces.push(done);
            cur = Vec::new();
            assert(views(pieces@) =~= old_pieces.push(done@));
            assert(views(pieces@).push(cur@) =~= before.push(Seq::empty()));
        } else {
            cur.push(c);
            assert(views(pieces@).push(cur@) =~= before.update(
                before.len() - 1,
                before.last().push(c),
            ));
        }
        i += 1;
    }
    assert(s@.take(s@.len() as int) =~= s@);
    let ghost fin = views(pieces@).push(cur@);
    let last = cur;
    pieces.push(last);
    assert(views(pieces@) =~= fin);
    pieces
}


/// Every subscript is well formed.
pub open spec fn subscripts_ok(subs: Seq<Seq<char>>) -> bool {
    forall|h: int| 0 <= h < subs.len() ==> subscript_ok(#[trigger] subs[h])
}

/// Subscript `g` is the first malformed one.
pub open spec fn first_bad_subscript(subs: Seq<Seq<char>>, g: int) -> bool {
    &&& 0 <= g < subs.len()
    &&& !subscript_ok(subs[g])
    &&& forall|h: int| 0 <= h < g ==> subscript_ok(#[trigger] subs[h])
}

/// Every output letter is a letter of some input.
pub open spec fn outputs_known(ins: Seq<Seq<char>>, out: Seq<char>) -> bool {
    forall|j: int| 0 <= j < out.len() ==> in_some(ins, #[trigger] out[j])
}

/// Output letter `j` is the first that no input has.
pub open spec fn first_unknown(ins: Seq<Seq<char>>, out: Seq<char>, j: int) -> bool {
    &&& 0 <= j < out.len()
    &&& !in_some(ins, out[j])
    &&& forall|i: int| 0 <= i < j ==> in_some(ins, #[trigger] out[i])
}

/// `e` is the einsum refusal `issue`.
pub open spec fn einsum_error(e: Error, issue: EinsumIssue) -> bool {
    e matches Error::InvalidArgument { issue: Issue::Einsum(x), .. } && x == issue
}

/// Whether `c` occurs in `s`.
pub fn has(s: &[char], c: char) -> (r: bool)
    ensures
        r == s@.contains(c),
{
    let mut i: usize = 0;
    while i < s.len()
        invariant
            i <= s@.len(),
            forall|j: int| 0 <= j < i ==> s@[j] != c,
        decreases s.len() - i,
    {
        if s[i] == c {
            assert(s@[i as int] == c);
            return true;
        }
        i += 1;
    }
    false
}

/// Why a subscript is malformed, if it is.
fn check_subscript(g: &[char]) -> (r: Option<EinsumIssue>)
    ensures
        r is None <==> subscript_ok(g@),
        r matches Some(issue) ==> reports_subscript(g@, issue),
{
    let mut j: usize = 0;
    while j < g.len()
        invariant
            j <= g@.len(),
            forall|i: int| 0 <= i < j ==> lowercase(#[trigger] g@[i]),
        decreases g.len() - j,
    {
        let c = g[j];
        if !('a' <= c && c <= 'z') {
            assert(first_nonletter(g@, j as int));
            return Some(EinsumIssue::NotALetter { letter: c });
        }
        j += 1;
    }
    let mut j: usize = 0;
    while j < g.len()
        invariant
            j <= g@.len(),
            forall|i: int| 0 <= i < g@.len() ==> lowercase(#[trigger] g@[i]),
            forall|i: int| 0 <= i < j ==> !(#[trigger] g@.take(i)).contains(g@[i]),
        decreases g.len() - j,
    {
        let c = g[j];
        let seen = sub_chars(g, 0, j);
        assert(seen@ =~= g@.take(j as int));
        if has(seen.as_slice(), c) {
            assert(first_repeat(g@, j as int));
            return Some(EinsumIssue::RepeatedLetter { letter: c });
        }
        j += 1;
    }
    proof {
        assert forall|a: int, b: int|
            0 <= a < g@.len() && 0 <= b < g@.len() && a != b implies g@[a] != g@[b] by {
            if a < b {
                if g@[a] == g@[b] {
                    assert(g@.take(b)[a] == g@[b]);
                    assert(g@.take(b).contains(g@[b]));
                }
            } else {
                if g@[a] == g@[b] {
                    assert(g@.take(a)[b] == g@[a]);
                    assert(g@.take(a).contains(g@[a]));
                }
            }
        }
    }
    None
}

/// Whether some input subscript has letter `c`.
fn in_inputs(inputs: &Vec<Vec<char>>, c: char) -> (r: bool)
    ensures
        r == in_some(views(inputs@), c),
{
    let mut k: usize = 0;
    while k < inputs.len()
        invariant
            k <= inputs@.len(),
            forall|i: int| 0 <= i < k ==> !(#[trigger] views(inputs@)[i]).contains(c),
        decreases inputs.len() - k,
    {
        if has(inputs[k].as_slice(), c) {
            assert(views(inputs@)[k as int].contains(c));
            return true;
        }
        k += 1;
    }
    false
}

/// What [`parse`] reports when it refuses `s` for `operands` operands:
/// `MissingArrow`, then `SpecOperandCount`, then the first malformed
/// subscript, then the first output letter no input has.
pub open spec fn parse_refuses(s: Seq<char>, operands: usize, e: Error) -> bool {
    let c = compact(s);
    &&& (forall|j: int| !arrow_at(c, j)) ==> einsum_error(e, EinsumIssue::MissingArrow)
    &&& forall|i: int| #[trigger]
        first_arrow(c, i) ==> {
            let ins = parsed(c, i).0;
            let out = parsed(c, i).1;
            let subs = all_subscripts(c, i);
            &&& ins.len() != operands ==> einsum_error(
                e,
                EinsumIssue::SpecOperandCount { named: ins.len() as usize, given: operands },
            )
            &&& ins.len() == operands && !subscripts_ok(subs) ==> (e matches Error::InvalidArgument {
                issue: Issue::Einsum(issue),
                ..
            } && exists|g: int| first_bad_subscript(subs, g) && reports_subscript(subs[g], issue))
            &&& ins.len() == operands && subscripts_ok(subs) && !outputs_known(ins, out) ==> (
            e matches Error::InvalidArgument {
                issue: Issue::Einsum(EinsumIssue::UnknownOutputLetter { letter }),
                ..
            } && exists|j: int| first_unknown(ins, out, j) && out[j] == letter)
        }
}

/// The input subscripts and the output subscript of `spec`, for
/// `operands` operands.
///
/// Refusals, checked in this order: `MissingArrow` when there is no
/// `->`; `SpecOperandCount` when the part before the first arrow names a
/// different number of comma-separated subscripts; `NotALetter` or
/// `RepeatedLetter` for the first malformed subscript (inputs first, then
/// the output); `UnknownOutputLetter` for the first output letter no input
/// has.
pub fn parse(spec: &str, operands: usize) -> (r: Result<(Vec<Vec<char>>, Vec<char>), Error>)
    ensures
        r matches Err(e) ==> crate::error::names_op(e, "einsum"@),
        r matches Err(e) ==> parse_refuses(spec@, operands, e),
        ({
            let c = compact(spec@);
            &&& (forall|j: int| !arrow_at(c, j)) ==> (r matches Err(e) && einsum_error(
                e,
                EinsumIssue::MissingArrow,
            ))
            &&& forall|i: int| #[trigger]
                first_arrow(c, i) ==> {
                    let ins = parsed(c, i).0;
                    let out = parsed(c, i).1;
                    let subs = all_subscripts(c, i);
                    &&& ins.len() != operands ==> (r matches Err(e) && einsum_error(
                        e,
                        EinsumIssue::SpecOperandCount { named: ins.len() as usize, given: operands },
                    ))
                    &&& ins.len() == operands && !subscripts_ok(subs) ==> (r matches Err(e)
                        && e matches Error::InvalidArgument { issue: Issue::Einsum(issue), .. }
                        && exists|g: int|
                        first_bad_subscript(subs, g) && reports_subscript(subs[g], issue))
                    &&& ins.len() == operands && subscripts_ok(subs) && !outputs_known(ins, out) ==> (
                    r matches Err(e) && e matches Error::InvalidArgument {
                        issue: Issue::Einsum(EinsumIssue::UnknownOutputLetter { letter }),
                        ..
                    } && exists|j: int| first_unknown(ins, out, j) && out[j] == letter)
                    &&& ins.len() == operands && subscripts_ok(subs) && outputs_known(ins, out) ==> (
                    r matches Ok((pi, po)) && views(pi@) == ins && po@ == out)
                }
        }),
        r matches Ok((pi, po)) ==> pi@.len() == operands && subscripts_ok(views(pi@).push(po@))
            && outputs_known(views(pi@), po@),
        r matches Err(e) ==> e matches Error::InvalidArgument { issue: Issue::Einsum(x), .. } && !(
        x is OperandCount),
{
    let c = strip_whitespace(spec);
    let i = match find_arrow(c.as_slice()) {
        Some(i) => i,
        None => {
            return Err(
                Error::InvalidArgument {
                    op: "einsum",
                    issue: Issue::Einsum(EinsumIssue::MissingArrow),
                },
            );
        },
    };
    let ghost cs = c@;
    proof {
        assert forall|i2: int| #[trigger] first_arrow(cs, i2) implies i2 == i by {
            if i2 < i {
                assert(!arrow_at(cs, i2));
            } else if i2 > i {
                assert(!arrow_at(cs, i as int));
            }
        }
    }
    let lhs = sub_chars(c.as_slice(), 0, i);
    let n = c.len();
    let rhs = sub_chars(c.as_slice(), i + 2, n);
    proof {
        assert(lhs@ =~= cs.take(i as int));
        assert(rhs@ =~= cs.skip(i + 2));
    }
    let inputs = split_at_commas(lhs.as_slice());
    let ghost ins = views(inputs@);
    let ghost subs = all_subscripts(cs, i as int);
    if inputs.len() != operands {
        return Err(
            Error::InvalidArgument {
                op: "einsum",
                issue: Issue::Einsum(
                    EinsumIssue::SpecOperandCount { named: inputs.len(), given: operands },
                ),
            },
        );
    }
    let mut g: usize = 0;
    while g < inputs.len()
        invariant
            g <= inputs@.len(),
            ins == views(inputs@),
            subs == ins.push(rhs@),
            forall|h: int| 0 <= h < g ==> subscript_ok(#[trigger] subs[h]),
            ins == parsed(cs, i as int).0,
            rhs@ == parsed(cs, i as int).1,
            subs == all_subscripts(cs, i as int),
            cs == compact(spec@),
            forall|i2: int| #[trigger] first_arrow(cs, i2) ==> i2 == i,
            first_arrow(cs, i as int),
            inputs@.len() == operands,
        decreases inputs.len() - g,
    {
        match check_subscript(inputs[g].as_slice()) {
            Some(issue) => {
                proof {
                    assert(subs[g as int] == inputs@[g as int]@);
                    assert(first_bad_subscript(subs, g as int));
                    assert(!subscripts_ok(subs));
                    assert(reports_subscript(subs[g as int], issue));
                    assert(exists|g2: int|
                        first_bad_subscript(subs, g2) && reports_subscript(subs[g2], issue));
                }
                return Err(Error::InvalidArgument { op: "einsum", issue: Issue::Einsum(issue) });
            },
            None => {},
        }
        assert(subs[g as int] == inputs@[g as int]@);
        g += 1;
    }
    match check_subscript(rhs.as_slice()) {
        Some(issue) => {
            proof {
                assert(subs[ins.len() as int] == rhs@);
                assert(first_bad_subscript(subs, ins.len() as int));
                assert(!subscripts_ok(subs));
                assert(exists|g2: int|
                    first_bad_subscript(subs, g2) && reports_subscript(subs[g2], issue));
            }
            return Err(Error::InvalidArgument { op: "einsum", issue: Issue::Einsum(issue) });
        },
        None => {},
    }
    proof {
        assert forall|h: int| 0 <= h < subs.len() implies subscript_ok(#[trigger] subs[h]) by {
            if h == ins.len() {
                assert(subs[h] == rhs@);
            }
        }
    }
    let mut j: usize = 0;
    while j < rhs.len()
        invariant
            j <= rhs@.len(),
            ins == views(inputs@),
            forall|x: int| 0 <= x < j ==> in_some(ins, #[trigger] rhs@[x]),
            ins == parsed(cs, i as int).0,
            rhs@ == parsed(cs, i as int).1,
            subs == all_subscripts(cs, i as int),
            subscripts_ok(subs),
            cs == compact(spec@),
            forall|i2: int| #[trigger] first_arrow(cs, i2) ==> i2 == i,
            first_arrow(cs, i as int),
            inputs@.len() == operands,
        decreases rhs.len() - j,
    {
        let letter = rhs[j];
        if !in_inputs(&inputs, letter) {
            proof {
                assert(first_unknown(ins, rhs@, j as int));
                assert(!outputs_known(ins, rhs@));
                assert(exists|j2: int| first_unknown(ins, rhs@, j2) && rhs@[j2] == letter);
            }
            return Err(
                Error::InvalidArgument {
                    op: "einsum",
                    issue: Issue::Einsum(EinsumIssue::UnknownOutputLetter { letter }),
                },
            );
        }
        j += 1;
    }
    Ok((inputs, rhs))
}


/// The extents of a list of operands.
pub open spec fn dims_views(v: Seq<Vec<usize>>) -> Seq<Seq<usize>> {
    Seq::new(v.len(), |k: int| v[k]@)
}

/// The size a table gives letter `c`: its first entry's, or 1 when the
/// letter has none.
pub open spec fn size_in(table: Seq<(char, usize)>, c: char) -> int
    decreases table.len(),
{
    if table.len() == 0 {
        1
    } else if table[0].0 == c {
        table[0].1 as int
    } else {
        size_in(table.drop_first(), c)
    }
}

/// The table has an entry for `c`.
pub open spec fn has_key(table: Seq<(char, usize)>, c: char) -> bool {
    exists|k: int| 0 <= k < table.len() && (#[trigger] table[k]).0 == c
}

/// Operands before `k` have one letter per dimension.
pub open spec fn ranks_match_upto(ins: Seq<Seq<char>>, ds: Seq<Seq<usize>>, k: int) -> bool {
    forall|o: int| 0 <= o < k ==> (#[trigger] ins[o]).len() == ds[o].len()
}

/// Wherever a letter appears in the operands before `k`, it names the
/// same size.
pub open spec fn agree_upto(ins: Seq<Seq<char>>, ds: Seq<Seq<usize>>, k: int) -> bool {
    forall|o1: int, j1: int, o2: int, j2: int|
        0 <= o1 < k && 0 <= j1 < ins[o1].len() && 0 <= o2 < k && 0 <= j2 < ins[o2].len() && #[trigger] ins[o1][j1]
            == #[trigger] ins[o2][j2] ==> ds[o1][j1] == ds[o2][j2]
}

/// The operands before `k` have consistent letters.
pub open spec fn consistent_upto(ins: Seq<Seq<char>>, ds: Seq<Seq<usize>>, k: int) -> bool {
    ranks_match_upto(ins, ds, k) && agree_upto(ins, ds, k)
}

/// Subscript position `(o, i)` is scanned before `(k, j)`: operands in
/// order, letters in order within an operand.
pub open spec fn scanned_before(o: int, i: int, k: int, j: int) -> bool {
    o < k || (o == k && i < j)
}

/// Every letter at a position scanned before `(k, j)` names one size.
pub open spec fn agree_before(ins: Seq<Seq<char>>, ds: Seq<Seq<usize>>, k: int, j: int) -> bool {
    forall|o1: int, j1: int, o2: int, j2: int|
        0 <= o1 < ins.len() && 0 <= j1 < ins[o1].len() && 0 <= o2 < ins.len() && 0 <= j2
            < ins[o2].len() && scanned_before(o1, j1, k, j) && scanned_before(o2, j2, k, j)
            && #[trigger] ins[o1][j1] == #[trigger] ins[o2][j2] ==> ds[o1][j1] == ds[o2][j2]
}

/// What [`letter_sizes`] reports for operands whose subscripts and
/// extents disagree: at the first operand that breaks agreement, a
/// `RankMismatch` when its subscript length differs from its rank, else a
/// `SizeMismatch` naming the first of its letters whose extent differs
/// from the one that letter had before (`first`), and the new extent
/// (`second`).
pub open spec fn size_refuses(ins: Seq<Seq<char>>, ds: Seq<Seq<usize>>, e: Error) -> bool {
    ||| e matches Error::InvalidArgument {
        issue: Issue::Einsum(EinsumIssue::RankMismatch { operand, letters, rank }),
        ..
    } && consistent_upto(ins, ds, operand as int) && operand < ins.len() && letters
        == ins[operand as int].len() && rank == ds[operand as int].len() && letters != rank
    ||| e matches Error::InvalidArgument {
        issue: Issue::Einsum(EinsumIssue::SizeMismatch { letter, first, second }),
        ..
    } && first != second && exists|k: int, j: int, o1: int, j1: int|
        0 <= k < ins.len() && consistent_upto(ins, ds, k) && ins[k].len() == ds[k].len() && 0 <= j
            < ins[k].len() && agree_before(ins, ds, k, j) && 0 <= o1 && 0 <= j1 < ins[o1].len()
            && scanned_before(o1, j1, k, j) && #[trigger] ins[o1][j1] == letter && #[trigger] ins[k][j]
            == letter && ds[o1][j1] == first && ds[k][j] == second
}

/// The size of `c` in the table: its first entry's, or 1.
pub fn size_of(table: &[(char, usize)], c: char) -> (r: usize)
    ensures
        r == size_in(table@, c),
{
    assert(table@.skip(0) =~= table@);
    let mut i: usize = 0;
    while i < table.len()
        invariant
            i <= table@.len(),
            size_in(table@.skip(i as int), c) == size_in(table@, c),
        decreases table.len() - i,
    {
        assert(table@.skip(i as int).drop_first() =~= table@.skip(i + 1));
        if table[i].0 == c {
            return table[i].1;
        }
        i += 1;
    }
    1
}

/// The table's entry for `c`, if any.
fn lookup(table: &Vec<(char, usize)>, c: char) -> (r: Option<usize>)
    ensures
        r is None <==> !has_key(table@, c),
        r matches Some(x) ==> x == size_in(table@, c),
{
    assert(table@.skip(0) =~= table@);
    let mut i: usize = 0;
    while i < table.len()
        invariant
            i <= table@.len(),
            size_in(table@.skip(i as int), c) == size_in(table@, c),
            forall|k: int| 0 <= k < i ==> (#[trigger] table@[k]).0 != c,
        decreases table.len() - i,
    {
        assert(table@.skip(i as int).drop_first() =~= table@.skip(i + 1));
        if table[i].0 == c {
            assert(table@[i as int].0 == c);
            return Some(table[i].1);
        }
        i += 1;
    }
    None
}

/// Appending an entry leaves the sizes of letters already present, and
/// gives a new letter the appended size.
proof fn lemma_size_in_push(t: Seq<(char, usize)>, x: (char, usize), c: char)
    ensures
        size_in(t.push(x), c) == if has_key(t, c) {
            size_in(t, c)
        } else if x.0 == c {
            x.1 as int
        } else {
            1
        },
    decreases t.len(),
{
    let tp = t.push(x);
    assert(tp[0] == if t.len() > 0 {
        t[0]
    } else {
        x
    });
    if t.len() > 0 {
        assert(tp.drop_first() =~= t.drop_first().push(x));
        lemma_size_in_push(t.drop_first(), x, c);
        if t[0].0 != c {
            assert(size_in(tp, c) == size_in(tp.drop_first(), c));
            assert(size_in(t, c) == size_in(t.drop_first(), c));
            if has_key(t, c) {
                let k = choose|k: int| 0 <= k < t.len() && (#[trigger] t[k]).0 == c;
                assert(t.drop_first()[k - 1] == t[k]);
                assert(has_key(t.drop_first(), c));
            }
            if has_key(t.drop_first(), c) {
                let k = choose|k: int| 0 <= k < t.drop_first().len() && (#[trigger] t.drop_first()[k]).0 == c;
                assert(t[k + 1] == t.drop_first()[k]);
                assert(has_key(t, c));
            }
            assert(size_in(tp, c) == if has_key(t, c) {
                size_in(t, c)
            } else if x.0 == c {
                x.1 as int
            } else {
                1
            });
        } else {
            assert(t[0].0 == c);
            assert(has_key(t, c));
            assert(size_in(tp, c) == t[0].1);
        }
    } else {
        assert(tp.drop_first() =~= Seq::<(char, usize)>::empty());
        assert(size_in(Seq::<(char, usize)>::empty(), c) == 1);
        assert(!has_key(t, c));
        assert(size_in(tp, c) == if has_key(t, c) {
                size_in(t, c)
            } else if x.0 == c {
                x.1 as int
            } else {
                1
            });
    }
}

/// A letter with an entry has its entry's size.
proof fn lemma_size_in_key(t: Seq<(char, usize)>, k: int)
    requires
        0 <= k < t.len(),
        forall|a: int, b: int| 0 <= a < b < t.len() ==> (#[trigger] t[a]).0 != (#[trigger] t[b]).0,
    ensures
        size_in(t, t[k].0) == t[k].1,
    decreases k,
{
    if k > 0 {
        assert(t[0].0 != t[k].0);
        let d = t.drop_first();
        assert(d[k - 1] == t[k]);
        assert forall|a: int, b: int| 0 <= a < b < d.len() implies (#[trigger] d[a]).0 != (
        #[trigger] d[b]).0 by {
            assert(d[a] == t[a + 1] && d[b] == t[b + 1]);
        }
        lemma_size_in_key(d, k - 1);
    }
}

/// The size table of the operands: every letter with the extent it
/// names, in order of first appearance.
///
/// `RankMismatch` for the first operand whose subscript length differs
/// from its rank; `SizeMismatch` for the first letter that names an
/// extent other than the one it named first, reporting both.
pub fn letter_sizes(inputs: &Vec<Vec<char>>, dims: &Vec<Vec<usize>>) -> (r: Result<
    Vec<(char, usize)>,
    Error,
>)
    requires
        inputs@.len() == dims@.len(),
    ensures
        r matches Err(e) ==> crate::error::names_op(e, "einsum"@),
        r is Ok <==> consistent_upto(views(inputs@), dims_views(dims@), inputs@.len() as int),
        r matches Ok(table) ==> {
            let ins = views(inputs@);
            let ds = dims_views(dims@);
            &&& forall|o: int, j: int|
                0 <= o < ins.len() && 0 <= j < ins[o].len() ==> size_in(table@, #[trigger] ins[o][j])
                    == ds[o][j]
            &&& forall|a: int, b: int|
                0 <= a < b < table@.len() ==> (#[trigger] table@[a]).0 != (#[trigger] table@[b]).0
            &&& forall|a: int| 0 <= a < table@.len() ==> in_some(ins, (#[trigger] table@[a]).0)
        },
        r matches Err(e) ==> size_refuses(views(inputs@), dims_views(dims@), e),
{
    let ghost ins = views(inputs@);
    let ghost ds = dims_views(dims@);
    let mut table: Vec<(char, usize)> = Vec::new();
    let ghost mut origin: Seq<(int, int)> = Seq::empty();
    let mut k: usize = 0;
    while k < inputs.len()
        invariant
            k <= inputs@.len(),
            inputs@.len() == dims@.len(),
            ins == views(inputs@),
            ds == dims_views(dims@),
            consistent_upto(ins, ds, k as int),
            forall|o: int, j: int|
                0 <= o < k && 0 <= j < ins[o].len() ==> size_in(table@, #[trigger] ins[o][j])
                    == ds[o][j] && has_key(table@, ins[o][j]),
            forall|a: int, b: int|
                0 <= a < b < table@.len() ==> (#[trigger] table@[a]).0 != (#[trigger] table@[b]).0,
            origin.len() == table@.len(),
            forall|a: int|
                0 <= a < table@.len() ==> {
                    let (o, j) = #[trigger] origin[a];
                    &&& 0 <= o < k && 0 <= j < ins[o].len()
                    &&& ins[o][j] == table@[a].0
                    &&& ds[o][j] == table@[a].1
                },
        decreases inputs.len() - k,
    {
        let sub = &inputs[k];
        let d = &dims[k];
        assert(sub@ == ins[k as int]);
        assert(d@ == ds[k as int]);
        if sub.len() != d.len() {
            return Err(
                Error::InvalidArgument {
                    op: "einsum",
                    issue: Issue::Einsum(
                        EinsumIssue::RankMismatch { operand: k, letters: sub.len(), rank: d.len() },
                    ),
                },
            );
        }
        let mut j: usize = 0;
        while j < sub.len()
            invariant
                j <= sub@.len(),
                sub@.len() == d@.len(),
                k < inputs@.len(),
                sub@ == ins[k as int],
                d@ == ds[k as int],
                ins == views(inputs@),
                ds == dims_views(dims@),
                consistent_upto(ins, ds, k as int),
                forall|o: int, jj: int|
                    (0 <= o < k && 0 <= jj < ins[o].len()) || (o == k && 0 <= jj < j) ==> size_in(
                        table@,
                        #[trigger] ins[o][jj],
                    ) == ds[o][jj] && has_key(table@, ins[o][jj]),
                forall|a: int, b: int|
                    0 <= a < b < table@.len() ==> (#[trigger] table@[a]).0 != (#[trigger] table@[b]).0,
                origin.len() == table@.len(),
                forall|a: int|
                    0 <= a < table@.len() ==> {
                        let (o, jj) = #[trigger] origin[a];
                        &&& (0 <= o < k && 0 <= jj < ins[o].len()) || (o == k && 0 <= jj < j)
                        &&& ins[o][jj] == table@[a].0
                        &&& ds[o][jj] == table@[a].1
                    },
            decreases sub.len() - j,
        {
            let c = sub[j];
            let x = d[j];
            assert(ins[k as int][j as int] == c);
            assert(ds[k as int][j as int] == x);
            match lookup(&table, c) {
                Some(existing) => {
                    if existing != x {
                        proof {
                            let a = choose|a: int| 0 <= a < table@.len() && (#[trigger] table@[a]).0 == c;
                            lemma_size_in_key(table@, a);
                            let (o1, j1) = origin[a];
                            assert(ins[o1][j1] == c);
                            assert(ds[o1][j1] == existing);
                            assert(scanned_before(o1, j1, k as int, j as int));
                            assert forall|p1: int, q1: int, p2: int, q2: int|
                                0 <= p1 < ins.len() && 0 <= q1 < ins[p1].len() && 0 <= p2 < ins.len()
                                    && 0 <= q2 < ins[p2].len() && scanned_before(p1, q1, k as int, j as int)
                                    && scanned_before(p2, q2, k as int, j as int) && #[trigger] ins[p1][q1]
                                    == #[trigger] ins[p2][q2] implies ds[p1][q1] == ds[p2][q2] by {
                                assert(size_in(table@, ins[p1][q1]) == ds[p1][q1]);
                                assert(size_in(table@, ins[p2][q2]) == ds[p2][q2]);
                            }
                            assert(agree_before(ins, ds, k as int, j as int));
                            assert(ins[k as int][j as int] == c);
                            assert(!consistent_upto(ins, ds, inputs@.len() as int)) by {
                                assert(ins[o1][j1] == ins[k as int][j as int]);
                            }
                        }
                        return Err(
                            Error::InvalidArgument {
                                op: "einsum",
                                issue: Issue::Einsum(
                                    EinsumIssue::SizeMismatch { letter: c, first: existing, second: x },
                                ),
                            },
                        );
                    }
                },
                None => {
                    let ghost before = table@;
                    let ghost before_origin = origin;
                    table.push((c, x));
                    proof {
                        origin = origin.push((k as int, j as int));
                        assert forall|o: int, jj: int|
                            (0 <= o < k && 0 <= jj < ins[o].len()) || (o == k && 0 <= jj < j + 1)
                                implies size_in(table@, #[trigger] ins[o][jj]) == ds[o][jj] && has_key(
                            table@,
                            ins[o][jj],
                        ) by {
                            lemma_size_in_push(before, (c, x), ins[o][jj]);
                            if o == k && jj == j {
                                assert(table@[before.len() as int].0 == c);
                            } else {
                                let w = choose|w: int| 0 <= w < before.len() && (#[trigger] before[w]).0 == ins[o][jj];
                                assert(table@[w] == before[w]);
                            }
                        }
                        assert forall|a: int| 0 <= a < table@.len() implies {
                            let (o, jj) = #[trigger] origin[a];
                            &&& (0 <= o < k && 0 <= jj < ins[o].len()) || (o == k && 0 <= jj < j + 1)
                            &&& ins[o][jj] == table@[a].0
                            &&& ds[o][jj] == table@[a].1
                        } by {
                            if a < before.len() {
                                assert(table@[a] == before[a]);
                                assert(origin[a] == before_origin[a]);
                            }
                        }
                    }
                },
            }
            j += 1;
        }
        proof {
            assert forall|a: int| 0 <= a < table@.len() implies {
                let (o, j) = #[trigger] origin[a];
                &&& 0 <= o < k + 1 && 0 <= j < ins[o].len()
                &&& ins[o][j] == table@[a].0
                &&& ds[o][j] == table@[a].1
            } by {
                let (o, jj) = origin[a];
                assert((0 <= o < k && 0 <= jj < ins[o].len()) || (o == k && 0 <= jj < j));
            }
            assert forall|o1: int, j1: int, o2: int, j2: int|
                0 <= o1 < k + 1 && 0 <= j1 < ins[o1].len() && 0 <= o2 < k + 1 && 0 <= j2
                    < ins[o2].len() && #[trigger] ins[o1][j1] == #[trigger] ins[o2][j2] implies ds[o1][j1]
                == ds[o2][j2] by {
                assert(size_in(table@, ins[o1][j1]) == ds[o1][j1]);
                assert(size_in(table@, ins[o2][j2]) == ds[o2][j2]);
            }
        }
        k += 1;
    }
    proof {
        assert forall|a: int| 0 <= a < table@.len() implies in_some(ins, (#[trigger] table@[a]).0) by {
            let (o, j) = origin[a];
            assert(ins[o].contains(ins[o][j]));
        }
    }
    Ok(table)
}


/// The letters of `s` whose membership in `x` is `bx` and in `y` is
/// `by`, in the order of `s`.
pub open spec fn select(s: Seq<char>, x: Seq<char>, bx: bool, y: Seq<char>, by: bool) -> Seq<char>
    decreases s.len(),
{
    if s.len() == 0 {
        s
    } else {
        let p = select(s.drop_last(), x, bx, y, by);
        if x.contains(s.last()) == bx && y.contains(s.last()) == by {
            p.push(s.last())
        } else {
            p
        }
    }
}

/// The extents a size table gives a list of letters.
pub open spec fn letter_dims(table: Seq<(char, usize)>, letters: Seq<char>) -> Seq<usize> {
    Seq::new(letters.len(), |i: int| size_in(table, letters[i]) as usize)
}

/// `0, 1, .., n - 1` shifted by `lo`: the axes `lo..lo + n`.
pub open spec fn axes_from(lo: int, n: int) -> Seq<usize> {
    Seq::new(n as nat, |i: int| (lo + i) as usize)
}

/// How a subscript `sub` is rearranged into `order`: no permutation
/// when it already is in that order, else a permutation that moves
/// each letter where `order` has it.
pub open spec fn arranges(sub: Seq<char>, order: Seq<char>, p: Option<Vec<usize>>) -> bool {
    match p {
        None => order == sub,
        Some(v) => is_permutation(v@, sub.len() as int) && permuted(sub, v@) == order && order != sub,
    }
}

/// The letters that `select` keeps are exactly those of `s` with the
/// wanted memberships.
proof fn lemma_select(s: Seq<char>, x: Seq<char>, bx: bool, y: Seq<char>, by: bool)
    ensures
        forall|c: char| #[trigger] select(s, x, bx, y, by).contains(c) <==> (s.contains(c) && x.contains(c)
            == bx && y.contains(c) == by),
        s.no_duplicates() ==> select(s, x, bx, y, by).no_duplicates(),
        select(s, x, bx, y, by).len() <= s.len(),
    decreases s.len(),
{
    broadcast use vstd::seq_lib::lemma_seq_contains_after_push;

    if s.len() > 0 {
        let sp = s.drop_last();
        lemma_select(sp, x, bx, y, by);
        assert(s =~= sp.push(s.last()));
        if s.no_duplicates() {
            assert(!sp.contains(s.last())) by {
                if sp.contains(s.last()) {
                    let i = choose|i: int| 0 <= i < sp.len() && sp[i] == s.last();
                    assert(s[i] == s[s.len() - 1]);
                }
            }
            assert(sp.no_duplicates()) by {
                assert forall|i: int, j: int|
                    0 <= i < sp.len() && 0 <= j < sp.len() && i != j implies sp[i] != sp[j] by {
                    assert(sp[i] == s[i] && sp[j] == s[j]);
                }
            }
            let p = select(sp, x, bx, y, by);
            assert(!p.contains(s.last()));
            assert forall|i: int, j: int|
                0 <= i < select(s, x, bx, y, by).len() && 0 <= j < select(s, x, bx, y, by).len() && i
                    != j implies select(s, x, bx, y, by)[i] != select(s, x, bx, y, by)[j] by {
                if i < p.len() && j < p.len() {
                } else if i < p.len() {
                    assert(p.contains(p[i]));
                } else if j < p.len() {
                    assert(p.contains(p[j]));
                }
            }
        }
    }
}

/// Two lists of distinct letters with the same letters have the same
/// length.
proof fn lemma_same_letters_len(a: Seq<char>, b: Seq<char>)
    requires
        a.no_duplicates(),
        b.no_duplicates(),
        forall|c: char| a.contains(c) <==> b.contains(c),
    ensures
        a.len() == b.len(),
{
    a.unique_seq_to_set();
    b.unique_seq_to_set();
    assert(a.to_set() =~= b.to_set());
}

/// The letters of `s` with the wanted memberships.
fn select_letters(s: &[char], x: &[char], bx: bool, y: &[char], by: bool) -> (r: Vec<char>)
    ensures
        r@ == select(s@, x@, bx, y@, by),
{
    let mut v: Vec<char> = Vec::new();
    let mut i: usize = 0;
    while i < s.len()
        invariant
            i <= s@.len(),
            v@ == select(s@.take(i as int), x@, bx, y@, by),
        decreases s.len() - i,
    {
        let c = s[i];
        assert(s@.take(i + 1).drop_last() =~= s@.take(i as int));
        if has(x, c) == bx && has(y, c) == by {
            v.push(c);
        }
        i += 1;
    }
    assert(s@.take(s@.len() as int) =~= s@);
    v
}

/// `a` followed by `b`.
fn concat_chars(a: &[char], b: &[char]) -> (r: Vec<char>)
    ensures
        r@ == a@ + b@,
{
    let mut v: Vec<char> = Vec::new();
    let mut i: usize = 0;
    while i < a.len()
        invariant
            i <= a@.len(),
            v@ =~= a@.take(i as int),
        decreases a.len() - i,
    {
        v.push(a[i]);
        i += 1;
    }
    let mut j: usize = 0;
    while j < b.len()
        invariant
            j <= b@.len(),
            v@ =~= a@ + b@.take(j as int),
        decreases b.len() - j,
    {
        v.push(b[j]);
        j += 1;
    }
    v
}

/// The position of letter `c` in `s`.
fn position(s: &[char], c: char) -> (r: usize)
    requires
        s@.contains(c),
    ensures
        r < s@.len(),
        s@[r as int] == c,
{
    let mut i: usize = 0;
    while i < s.len()
        invariant
            i <= s@.len(),
            forall|j: int| 0 <= j < i ==> s@[j] != c,
            s@.contains(c),
        decreases s.len() - i,
    {
        if s[i] == c {
            return i;
        }
        i += 1;
    }
    proof {
        let j = choose|j: int| 0 <= j < s@.len() && s@[j] == c;
    }
    0
}

/// The rearrangement of the distinct letters `sub` into `order`, which
/// has the same letters.
fn arrange_perm(sub: &[char], order: &[char]) -> (r: Option<Vec<usize>>)
    requires
        sub@.no_duplicates(),
        order@.no_duplicates(),
        forall|c: char| sub@.contains(c) <==> order@.contains(c),
    ensures
        arranges(sub@, order@, r),
{
    proof {
        lemma_same_letters_len(sub@, order@);
    }
    let mut perm: Vec<usize> = Vec::new();
    let mut same = true;
    let mut i: usize = 0;
    while i < order.len()
        invariant
            i <= order@.len(),
            order@.len() == sub@.len(),
            forall|c: char| sub@.contains(c) <==> order@.contains(c),
            perm@.len() == i,
            forall|j: int| 0 <= j < i ==> #[trigger] perm@[j] < sub@.len() && sub@[perm@[j] as int] == order@[j],
            same <==> forall|j: int| 0 <= j < i ==> #[trigger] perm@[j] == j,
        decreases order.len() - i,
    {
        assert(order@.contains(order@[i as int]));
        let p = position(sub, order[i]);
        let ghost prev = perm@;
        perm.push(p);
        proof {
            assert(perm@[i as int] == p);
            assert forall|j: int| 0 <= j < i implies perm@[j] == prev[j] by {}
            if !same {
                let w = choose|j: int| 0 <= j < i && prev[j] != j;
                assert(perm@[w] != w);
            }
        }
        same = same && p == i;
        i += 1;
    }
    if same {
        proof {
            assert forall|j: int| 0 <= j < order@.len() implies order@[j] == sub@[j] by {
                assert(perm@[j] == j);
            }
            assert(order@ =~= sub@);
        }
        None
    } else {
        proof {
            assert(permuted(sub@, perm@) =~= order@);
            assert forall|a: int, b: int| 0 <= a < b < sub@.len() implies #[trigger] perm@[a]
                != #[trigger] perm@[b] by {
                assert(order@[a] != order@[b]);
            }
            let j = choose|j: int| 0 <= j < perm@.len() && perm@[j] != j;
            assert(order@[j] != sub@[j]) by {
                assert(sub@[perm@[j] as int] == order@[j]);
            }
        }
        Some(perm)
    }
}

/// The extents a size table gives a list of letters.
fn dims_of(table: &Vec<(char, usize)>, letters: &[char]) -> (r: Vec<usize>)
    ensures
        r@ == letter_dims(table@, letters@),
{
    let mut v: Vec<usize> = Vec::new();
    let mut i: usize = 0;
    while i < letters.len()
        invariant
            i <= letters@.len(),
            v@ =~= letter_dims(table@, letters@).take(i as int),
        decreases letters.len() - i,
    {
        v.push(size_of(table.as_slice(), letters[i]));
        i += 1;
    }
    v
}

/// The axes `lo..hi`.
fn axes_range(lo: usize, hi: usize) -> (r: Vec<usize>)
    requires
        lo <= hi,
    ensures
        r@ == axes_from(lo as int, hi - lo),
{
    let mut v: Vec<usize> = Vec::new();
    let mut i: usize = lo;
    while i < hi
        invariant
            lo <= i <= hi,
            v@ =~= axes_from(lo as int, i - lo),
        decreases hi - i,
    {
        v.push(i);
        i += 1;
    }
    v
}

/// The element count of a list of letters' extents, or `ShapeOverflow`.
fn letters_numel(table: &Vec<(char, usize)>, letters: &[char]) -> (r: Result<usize, Error>)
    ensures
        r matches Err(e) ==> crate::error::names_op(e, "einsum"@),
        r matches Ok(x) ==> x == numel_of(letter_dims(table@, letters@)),
        r is Err <==> numel_of(letter_dims(table@, letters@)) > usize::MAX,
        r matches Err(e) ==> e is ShapeOverflow,
{
    let d = dims_of(table, letters);
    match checked_numel(d.as_slice()) {
        Some(x) => Ok(x),
        None => Err(Error::ShapeOverflow { dims: d, op: "einsum" }),
    }
}


/// The first arrow of a compact spec, when it has one.
pub open spec fn arrow_pos(c: Seq<char>) -> int {
    choose|i: int| first_arrow(c, i)
}

/// The input subscripts a spec names.
pub open spec fn spec_inputs(s: Seq<char>) -> Seq<Seq<char>> {
    parsed(compact(s), arrow_pos(compact(s))).0
}

/// The output subscript a spec names.
pub open spec fn spec_output(s: Seq<char>) -> Seq<char> {
    parsed(compact(s), arrow_pos(compact(s))).1
}

/// A spec that parses for `n` operands: it has an arrow, names `n`
/// well-formed input subscripts and a well-formed output whose letters
/// all occur in the inputs.
pub open spec fn well_formed_spec(s: Seq<char>, n: nat) -> bool {
    &&& exists|i: int| first_arrow(compact(s), i)
    &&& spec_inputs(s).len() == n
    &&& subscripts_ok(spec_inputs(s).push(spec_output(s)))
    &&& outputs_known(spec_inputs(s), spec_output(s))
}

/// Letter `c` names extent `d` somewhere in the operands.
pub open spec fn names_extent(ins: Seq<Seq<char>>, ds: Seq<Seq<usize>>, c: char, d: usize) -> bool {
    exists|o: int, j: int|
        0 <= o < ins.len() && 0 <= j < ins[o].len() && #[trigger] ins[o][j] == c && ds[o][j] == d
}

/// The extent letter `c` names in the operands.
pub open spec fn extent_of(ins: Seq<Seq<char>>, ds: Seq<Seq<usize>>, c: char) -> usize {
    choose|d: usize| #[trigger] names_extent(ins, ds, c, d)
}

/// The extents the operands give a list of letters.
pub open spec fn letter_extents(ins: Seq<Seq<char>>, ds: Seq<Seq<usize>>, letters: Seq<char>) -> Seq<
    usize,
> {
    Seq::new(letters.len(), |i: int| extent_of(ins, ds, letters[i]))
}

/// Letters in the output and both operands: the batch letters.
pub open spec fn batch_letters(sa: Seq<char>, sb: Seq<char>, out: Seq<char>) -> Seq<char> {
    select(out, sa, true, sb, true)
}

/// Output letters of the first operand only.
pub open spec fn a_free_letters(sa: Seq<char>, sb: Seq<char>, out: Seq<char>) -> Seq<char> {
    select(out, sa, true, sb, false)
}

/// Output letters of the second operand only.
pub open spec fn b_free_letters(sa: Seq<char>, sb: Seq<char>, out: Seq<char>) -> Seq<char> {
    select(out, sb, true, sa, false)
}

/// Letters of both operands and not the output: the contracted letters,
/// in the first operand's order.
pub open spec fn contracted_letters(sa: Seq<char>, sb: Seq<char>, out: Seq<char>) -> Seq<char> {
    select(sa, sb, true, out, false)
}

/// Letters only the first operand has and the output does not.
pub open spec fn a_drop_letters(sa: Seq<char>, sb: Seq<char>, out: Seq<char>) -> Seq<char> {
    select(sa, sb, false, out, false)
}

/// Letters only the second operand has and the output does not.
pub open spec fn b_drop_letters(sa: Seq<char>, sb: Seq<char>, out: Seq<char>) -> Seq<char> {
    select(sb, sa, false, out, false)
}

/// The first operand's letters in product order: batch, free,
/// contracted, then those summed away.
pub open spec fn a_order(sa: Seq<char>, sb: Seq<char>, out: Seq<char>) -> Seq<char> {
    batch_letters(sa, sb, out) + a_free_letters(sa, sb, out) + contracted_letters(sa, sb, out)
        + a_drop_letters(sa, sb, out)
}

/// The second operand's letters in product order: batch, contracted,
/// free, then those summed away.
pub open spec fn b_order(sa: Seq<char>, sb: Seq<char>, out: Seq<char>) -> Seq<char> {
    batch_letters(sa, sb, out) + contracted_letters(sa, sb, out) + b_free_letters(sa, sb, out)
        + b_drop_letters(sa, sb, out)
}

/// The product's letters: batch, then each operand's free letters.
pub open spec fn natural_letters(sa: Seq<char>, sb: Seq<char>, out: Seq<char>) -> Seq<char> {
    batch_letters(sa, sb, out) + a_free_letters(sa, sb, out) + b_free_letters(sa, sb, out)
}

/// How an einsum runs on the numeric layer.
#[derive(Debug)]
pub enum EinsumPlan {
    /// One operand: rearrange it by `perm` (none when its letters are
    /// already in order), then sum away `sum_axes` (nothing when empty).
    Single { perm: Option<Vec<usize>>, sum_axes: Vec<usize> },
    /// Two operands: rearrange each and sum away its own letters, make
    /// `a` contiguous as `[bn, m, k]` and `b` as `[bn, k, n]`, multiply,
    /// reshape the product to `natural_dims`, then rearrange it by
    /// `out_perm`.
    Pair {
        a_perm: Option<Vec<usize>>,
        a_sum_axes: Vec<usize>,
        b_perm: Option<Vec<usize>>,
        b_sum_axes: Vec<usize>,
        bn: usize,
        m: usize,
        k: usize,
        n: usize,
        natural_dims: Vec<usize>,
        out_perm: Option<Vec<usize>>,
    },
}

/// `(a + b)` has exactly the letters of `a` and of `b`.
proof fn lemma_concat_contains(a: Seq<char>, b: Seq<char>)
    ensures
        forall|c: char| #[trigger] (a + b).contains(c) <==> a.contains(c) || b.contains(c),
{
    assert forall|c: char| #[trigger] (a + b).contains(c) <==> a.contains(c) || b.contains(c) by {
        if (a + b).contains(c) {
            let i = choose|i: int| 0 <= i < (a + b).len() && (a + b)[i] == c;
            if i >= a.len() {
                assert(b[i - a.len()] == c);
            }
        }
        if a.contains(c) {
            let i = choose|i: int| 0 <= i < a.len() && a[i] == c;
            assert((a + b)[i] == c);
        }
        if b.contains(c) {
            let i = choose|i: int| 0 <= i < b.len() && b[i] == c;
            assert((a + b)[a.len() + i] == c);
        }
    }
}

/// Concatenating lists of distinct letters that share none keeps the
/// letters distinct.
proof fn lemma_concat_distinct(a: Seq<char>, b: Seq<char>)
    requires
        a.no_duplicates(),
        b.no_duplicates(),
        forall|c: char| !(a.contains(c) && b.contains(c)),
    ensures
        (a + b).no_duplicates(),
{
    assert forall|i: int, j: int| 0 <= i < a.len() && 0 <= j < b.len() implies a[i] != b[j] by {
        assert(a.contains(a[i]));
        assert(b.contains(b[j]));
    }
    vstd::seq_lib::lemma_no_dup_in_concat(a, b);
}


/// The pair orders rearrange each operand's own letters, and the product
/// letters rearrange into the output's.
proof fn lemma_pair_orders(sa: Seq<char>, sb: Seq<char>, out: Seq<char>)
    requires
        sa.no_duplicates(),
        sb.no_duplicates(),
        out.no_duplicates(),
        forall|c: char| out.contains(c) ==> sa.contains(c) || sb.contains(c),
    ensures
        a_order(sa, sb, out).no_duplicates(),
        forall|c: char| #[trigger] a_order(sa, sb, out).contains(c) <==> sa.contains(c),
        b_order(sa, sb, out).no_duplicates(),
        forall|c: char| #[trigger] b_order(sa, sb, out).contains(c) <==> sb.contains(c),
        natural_letters(sa, sb, out).no_duplicates(),
        forall|c: char| #[trigger] natural_letters(sa, sb, out).contains(c) <==> out.contains(c),
{
    let bt = batch_letters(sa, sb, out);
    let af = a_free_letters(sa, sb, out);
    let bf = b_free_letters(sa, sb, out);
    let ct = contracted_letters(sa, sb, out);
    let ad = a_drop_letters(sa, sb, out);
    let bd = b_drop_letters(sa, sb, out);
    lemma_select(out, sa, true, sb, true);
    lemma_select(out, sa, true, sb, false);
    lemma_select(out, sb, true, sa, false);
    lemma_select(sa, sb, true, out, false);
    lemma_select(sa, sb, false, out, false);
    lemma_select(sb, sa, false, out, false);
    lemma_concat_contains(bt, af);
    lemma_concat_contains(bt + af, ct);
    lemma_concat_contains(bt + af + ct, ad);
    lemma_concat_contains(bt, ct);
    lemma_concat_contains(bt + ct, bf);
    lemma_concat_contains(bt + ct + bf, bd);
    lemma_concat_contains(bt + af, bf);
    lemma_concat_distinct(bt, af);
    lemma_concat_distinct(bt + af, ct);
    lemma_concat_distinct(bt + af + ct, ad);
    lemma_concat_distinct(bt, ct);
    lemma_concat_distinct(bt + ct, bf);
    lemma_concat_distinct(bt + ct + bf, bd);
    lemma_concat_distinct(bt + af, bf);
}

/// The single-operand order (output letters, then the rest) rearranges
/// the operand's letters.
proof fn lemma_single_order(sa: Seq<char>, out: Seq<char>)
    requires
        sa.no_duplicates(),
        out.no_duplicates(),
        forall|c: char| out.contains(c) ==> sa.contains(c),
    ensures
        (out + select(sa, out, false, out, false)).no_duplicates(),
        forall|c: char| #[trigger] (out + select(sa, out, false, out, false)).contains(c) <==> sa.contains(c),
{
    let dr = select(sa, out, false, out, false);
    lemma_select(sa, out, false, out, false);
    lemma_concat_contains(out, dr);
    lemma_concat_distinct(out, dr);
}

/// Where the operands agree on every letter, the size table gives each
/// of their letters the extent it names.
proof fn lemma_table_extents(
    table: Seq<(char, usize)>,
    ins: Seq<Seq<char>>,
    ds: Seq<Seq<usize>>,
    letters: Seq<char>,
)
    requires
        consistent_upto(ins, ds, ins.len() as int),
        forall|o: int, j: int|
            0 <= o < ins.len() && 0 <= j < ins[o].len() ==> size_in(table, #[trigger] ins[o][j])
                == ds[o][j],
        forall|i: int| 0 <= i < letters.len() ==> in_some(ins, #[trigger] letters[i]),
    ensures
        letter_dims(table, letters) == letter_extents(ins, ds, letters),
{
    assert forall|i: int| 0 <= i < letters.len() implies #[trigger] letter_dims(table, letters)[i]
        == letter_extents(ins, ds, letters)[i] by {
        let l = letters[i];
        assert(in_some(ins, l));
        let o = choose|o: int| 0 <= o < ins.len() && (#[trigger] ins[o]).contains(l);
        let j = choose|j: int| 0 <= j < ins[o].len() && ins[o][j] == l;
        assert(names_extent(ins, ds, l, ds[o][j]));
        let d = extent_of(ins, ds, l);
        assert(names_extent(ins, ds, l, d));
        let (o2, j2) = choose|o2: int, j2: int|
            0 <= o2 < ins.len() && 0 <= j2 < ins[o2].len() && #[trigger] ins[o2][j2] == l && ds[o2][j2]
                == d;
        assert(ins[o][j] == ins[o2][j2]);
    }
    assert(letter_dims(table, letters) =~= letter_extents(ins, ds, letters));
}

/// The plan of `einsum(spec, operands)` for operands of extents
/// `operand_dims`.
///
/// `OperandCount` unless there are one or two operands; then the
/// refusals of [`parse`] and of [`letter_sizes`], in that order;
/// `ShapeOverflow` when a product extent does not fit in `usize`.
pub fn plan_einsum(spec: &str, operand_dims: &Vec<Vec<usize>>) -> (r: Result<EinsumPlan, Error>)
    ensures
        r matches Err(e) ==> crate::error::names_op(e, "einsum"@),
        ({
            let n = operand_dims@.len();
            let ins = spec_inputs(spec@);
            let out = spec_output(spec@);
            let ds = dims_views(operand_dims@);
            let sa = ins[0];
            let sb = ins[1];
            &&& (n == 0 || n > 2) <==> (r matches Err(e) && einsum_error(
                e,
                EinsumIssue::OperandCount { given: n as usize },
            ))
            &&& 1 <= n <= 2 && !well_formed_spec(spec@, n) ==> (r matches Err(e)
                && parse_refuses(spec@, n as usize, e))
            &&& 1 <= n <= 2 && well_formed_spec(spec@, n) && !consistent_upto(ins, ds, n as int) ==> (
            r matches Err(e) && size_refuses(ins, ds, e))
            &&& (r matches Err(e) && e is ShapeOverflow) ==> n == 2 && (numel_of(
                letter_extents(ins, ds, batch_letters(sa, sb, out)),
            ) > usize::MAX || numel_of(letter_extents(ins, ds, a_free_letters(sa, sb, out)))
                > usize::MAX || numel_of(letter_extents(ins, ds, contracted_letters(sa, sb, out)))
                > usize::MAX || numel_of(letter_extents(ins, ds, b_free_letters(sa, sb, out)))
                > usize::MAX)
            &&& 1 <= n <= 2 && well_formed_spec(spec@, n) && consistent_upto(ins, ds, n as int) && (n
                == 2 ==> numel_of(letter_extents(ins, ds, batch_letters(sa, sb, out))) <= usize::MAX
                && numel_of(letter_extents(ins, ds, a_free_letters(sa, sb, out))) <= usize::MAX
                && numel_of(letter_extents(ins, ds, contracted_letters(sa, sb, out))) <= usize::MAX
                && numel_of(letter_extents(ins, ds, b_free_letters(sa, sb, out))) <= usize::MAX)
                ==> r is Ok
            &&& r matches Ok(plan) ==> {
                &&& 1 <= n <= 2 && well_formed_spec(spec@, n) && consistent_upto(ins, ds, n as int)
                &&& match plan {
                    EinsumPlan::Single { perm, sum_axes } => {
                        &&& n == 1
                        &&& arranges(sa, out + select(sa, out, false, out, false), perm)
                        &&& sum_axes@ == axes_from(out.len() as int, sa.len() - out.len())
                    },
                    EinsumPlan::Pair {
                        a_perm,
                        a_sum_axes,
                        b_perm,
                        b_sum_axes,
                        bn,
                        m,
                        k,
                        n: cols,
                        natural_dims,
                        out_perm,
                    } => {
                        let bt = batch_letters(sa, sb, out);
                        let af = a_free_letters(sa, sb, out);
                        let bf = b_free_letters(sa, sb, out);
                        let ct = contracted_letters(sa, sb, out);
                        &&& n == 2
                        &&& arranges(sa, a_order(sa, sb, out), a_perm)
                        &&& a_sum_axes@ == axes_from(
                            (bt.len() + af.len() + ct.len()) as int,
                            a_drop_letters(sa, sb, out).len() as int,
                        )
                        &&& arranges(sb, b_order(sa, sb, out), b_perm)
                        &&& b_sum_axes@ == axes_from(
                            (bt.len() + ct.len() + bf.len()) as int,
                            b_drop_letters(sa, sb, out).len() as int,
                        )
                        &&& bn == numel_of(letter_extents(ins, ds, bt))
                        &&& m == numel_of(letter_extents(ins, ds, af))
                        &&& k == numel_of(letter_extents(ins, ds, ct))
                        &&& cols == numel_of(letter_extents(ins, ds, bf))
                        &&& natural_dims@ == letter_extents(ins, ds, natural_letters(sa, sb, out))
                        &&& arranges(natural_letters(sa, sb, out), out, out_perm)
                    },
                }
            }
        }),
{
    let count = operand_dims.len();
    if count == 0 || count > 2 {
        return Err(
            Error::InvalidArgument {
                op: "einsum",
                issue: Issue::Einsum(EinsumIssue::OperandCount { given: count }),
            },
        );
    }
    let (inputs, output) = match parse(spec, count) {
        Ok(p) => p,
        Err(e) => {
            return Err(e);
        },
    };
    let ghost ins = views(inputs@);
    let ghost ds = dims_views(operand_dims@);
    proof {
        let c = compact(spec@);
        if !(exists|i: int| first_arrow(c, i)) {
            assert forall|j: int| !arrow_at(c, j) by {
                if arrow_at(c, j) {
                    let mut k = j;
                    assert(exists|i: int| first_arrow(c, i)) by {
                        lemma_first_arrow_exists(c, j);
                    }
                }
            }
        }
        let i = arrow_pos(c);
        assert(first_arrow(c, i));
        assert(ins == spec_inputs(spec@));
        assert(output@ == spec_output(spec@));
    }
    let table = match letter_sizes(&inputs, operand_dims) {
        Ok(t) => t,
        Err(e) => {
            return Err(e);
        },
    };
    let ghost out = output@;
    proof {
        assert(subscripts_ok(ins.push(out)));
        assert forall|x: int| 0 <= x < ins.len() implies (#[trigger] ins[x]).no_duplicates() by {
            assert(subscript_ok(ins.push(out)[x]));
        }
        assert(out.no_duplicates()) by {
            assert(subscript_ok(ins.push(out)[ins.len() as int]));
        }
    }
    if count == 1 {
        let sa = inputs[0].as_slice();
        proof {
            assert(sa@ == ins[0]);
            assert forall|c: char| out.contains(c) implies sa@.contains(c) by {
                let j = choose|j: int| 0 <= j < out.len() && out[j] == c;
                assert(in_some(ins, out[j]));
            }
            lemma_single_order(sa@, out);
        }
        let dropped = select_letters(sa, output.as_slice(), false, output.as_slice(), false);
        let order = concat_chars(output.as_slice(), dropped.as_slice());
        proof {
            lemma_same_letters_len(sa@, order@);
        }
        let perm = arrange_perm(sa, order.as_slice());
        let sum_axes = axes_range(output.len(), sa.len());
        return Ok(EinsumPlan::Single { perm, sum_axes });
    }
    let sa = inputs[0].as_slice();
    let sb = inputs[1].as_slice();
    let o = output.as_slice();
    proof {
        assert(sa@ == ins[0]);
        assert(sb@ == ins[1]);
        assert forall|c: char| out.contains(c) implies sa@.contains(c) || sb@.contains(c) by {
            let j = choose|j: int| 0 <= j < out.len() && out[j] == c;
            assert(in_some(ins, out[j]));
            let x = choose|x: int| 0 <= x < ins.len() && (#[trigger] ins[x]).contains(out[j]);
        }
        lemma_pair_orders(sa@, sb@, out);
    }
    let batch = select_letters(o, sa, true, sb, true);
    let a_free = select_letters(o, sa, true, sb, false);
    let b_free = select_letters(o, sb, true, sa, false);
    let contract = select_letters(sa, sb, true, o, false);
    let a_drop = select_letters(sa, sb, false, o, false);
    let b_drop = select_letters(sb, sa, false, o, false);
    let a1 = concat_chars(batch.as_slice(), a_free.as_slice());
    let a2 = concat_chars(a1.as_slice(), contract.as_slice());
    let a_ord = concat_chars(a2.as_slice(), a_drop.as_slice());
    let b1 = concat_chars(batch.as_slice(), contract.as_slice());
    let b2 = concat_chars(b1.as_slice(), b_free.as_slice());
    let b_ord = concat_chars(b2.as_slice(), b_drop.as_slice());
    let natural = concat_chars(a1.as_slice(), b_free.as_slice());
    proof {
        lemma_same_letters_len(sa@, a_ord@);
        lemma_same_letters_len(sb@, b_ord@);
        lemma_same_letters_len(out, natural@);
        assert forall|x: int| 0 <= x < batch@.len() implies in_some(ins, #[trigger] batch@[x]) by {
            lemma_select(out, sa@, true, sb@, true);
            assert(batch@.contains(batch@[x]));
            assert(ins[0].contains(batch@[x]));
        }
        assert forall|x: int| 0 <= x < a_free@.len() implies in_some(ins, #[trigger] a_free@[x]) by {
            lemma_select(out, sa@, true, sb@, false);
            assert(a_free@.contains(a_free@[x]));
            assert(ins[0].contains(a_free@[x]));
        }
        assert forall|x: int| 0 <= x < b_free@.len() implies in_some(ins, #[trigger] b_free@[x]) by {
            lemma_select(out, sb@, true, sa@, false);
            assert(b_free@.contains(b_free@[x]));
            assert(ins[1].contains(b_free@[x]));
        }
        assert forall|x: int| 0 <= x < contract@.len() implies in_some(ins, #[trigger] contract@[x]) by {
            lemma_select(sa@, sb@, true, out, false);
            assert(contract@.contains(contract@[x]));
            assert(ins[0].contains(contract@[x]));
        }
        assert forall|x: int| 0 <= x < natural@.len() implies in_some(ins, #[trigger] natural@[x]) by {
            assert(natural@.contains(natural@[x]));
            let j = choose|j: int| 0 <= j < out.len() && out[j] == natural@[x];
            assert(in_some(ins, out[j]));
        }
        lemma_table_extents(table@, ins, ds, batch@);
        lemma_table_extents(table@, ins, ds, a_free@);
        lemma_table_extents(table@, ins, ds, b_free@);
        lemma_table_extents(table@, ins, ds, contract@);
        lemma_table_extents(table@, ins, ds, natural@);
    }
    let a_perm = arrange_perm(sa, a_ord.as_slice());
    let b_perm = arrange_perm(sb, b_ord.as_slice());
    proof {
        assert(b_ord@.len() == batch@.len() + contract@.len() + b_free@.len() + b_drop@.len());
        assert(a_ord@.len() == batch@.len() + a_free@.len() + contract@.len() + a_drop@.len());
    }
    let na = sa.len();
    let nb = sb.len();
    let a_keep = batch.len() + a_free.len() + contract.len();
    let b_keep = batch.len() + contract.len() + b_free.len();
    let a_sum_axes = axes_range(a_keep, na);
    let b_sum_axes = axes_range(b_keep, nb);
    let bn = match letters_numel(&table, batch.as_slice()) {
        Ok(x) => x,
        Err(e) => {
            return Err(e);
        },
    };
    let m = match letters_numel(&table, a_free.as_slice()) {
        Ok(x) => x,
        Err(e) => {
            return Err(e);
        },
    };
    let k = match letters_numel(&table, contract.as_slice()) {
        Ok(x) => x,
        Err(e) => {
            return Err(e);
        },
    };
    let n = match letters_numel(&table, b_free.as_slice()) {
        Ok(x) => x,
        Err(e) => {
            return Err(e);
        },
    };
    let natural_dims = dims_of(&table, natural.as_slice());
    let out_perm = arrange_perm(natural.as_slice(), o);
    Ok(
        EinsumPlan::Pair {
            a_perm,
            a_sum_axes,
            b_perm,
            b_sum_axes,
            bn,
            m,
            k,
            n,
            natural_dims,
            out_perm,
        },
    )
}

/// A string with an arrow has a first one.
proof fn lemma_first_arrow_exists(c: Seq<char>, j: int)
    requires
        arrow_at(c, j),
    ensures
        exists|i: int| first_arrow(c, i),
    decreases j,
{
    if exists|i: int| 0 <= i < j && arrow_at(c, i) {
        let i = choose|i: int| 0 <= i < j && arrow_at(c, i);
        lemma_first_arrow_exists(c, i);
    } else {
        assert(first_arrow(c, j));
    }
}

} // verus!
