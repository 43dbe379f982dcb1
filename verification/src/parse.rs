//! The extent-table parser.
//!
//! The textual format is the one the kernel exposes under `uid_map` /
//! `gid_map`: one line per extent, three whitespace-separated unsigned
//! 32-bit decimal integers per line, in the order
//! `(upper first, lower first, count)`.
//!
//! The model is stated over the raw bytes: `spec_lines` splits the input
//! into lines, `tokens` splits a line into whitespace-separated fields,
//! and `decimal_value` reads a field as a decimal numeral.

use vstd::prelude::*;

use crate::idmap::Extent;
use crate::idmap::IdMap;
use crate::idmap::Kind;

verus! {

/// Why a textual id-map table was rejected: the offending line, as it was
/// read, and the kind of map being parsed.
#[derive(Debug)]
pub struct ParseError {
    pub kind: Kind,
    pub line: Vec<u8>,
}

/// ASCII whitespace as it separates fields within a line: space, or one of
/// the control characters tab through carriage return.
pub open spec fn is_space(b: u8) -> bool {
    b == 32 || (9 <= b && b <= 13)
}

/// An ASCII decimal digit.
pub open spec fn is_digit(b: u8) -> bool {
    48 <= b && b <= 57
}

/// Index of the first newline byte at or after `i`, or `s.len()` when no
/// newline remains.
pub open spec fn line_end(s: Seq<u8>, i: int) -> int
    decreases s.len() - i when 0 <= i <= s.len()
{
    if i >= s.len() {
        s.len() as int
    } else if s[i] == 10 {
        i
    } else {
        line_end(s, i + 1)
    }
}

/// `line_end` stays within bounds, lands on a newline unless it reaches the
/// end, and skips no newline on the way.
pub proof fn lemma_line_end(s: Seq<u8>, i: int)
    requires
        0 <= i <= s.len(),
    ensures
        i <= line_end(s, i) <= s.len(),
        line_end(s, i) < s.len() ==> s[line_end(s, i)] == 10,
        forall|j: int| i <= j < line_end(s, i) ==> s[j] != 10,
    decreases s.len() - i,
{
    if i < s.len() && s[i] != 10 {
        lemma_line_end(s, i + 1);
    }
}

/// The lines of `s` from position `i` on: maximal newline-free segments,
/// where a final newline ends the last line rather than opening an empty
/// one (as a buffered line reader yields lines).
pub open spec fn lines_from(s: Seq<u8>, i: int) -> Seq<Seq<u8>>
    decreases s.len() - i when 0 <= i <= s.len()
{
    if i >= s.len() {
        Seq::empty()
    } else {
        proof {
            lemma_line_end(s, i);
        }
        let e = line_end(s, i);
        let next = if e + 1 <= s.len() { e + 1 } else { s.len() as int };
        seq![s.subrange(i, e)] + lines_from(s, next)
    }
}

/// The lines of `s`.
pub open spec fn spec_lines(s: Seq<u8>) -> Seq<Seq<u8>> {
    lines_from(s, 0)
}

/// There are never more lines than bytes.
pub proof fn lemma_lines_from_len(s: Seq<u8>, i: int)
    requires
        0 <= i <= s.len(),
    ensures
        lines_from(s, i).len() <= s.len() - i,
    decreases s.len() - i,
{
    if i < s.len() {
        lemma_line_end(s, i);
        let e = line_end(s, i);
        let next = if e + 1 <= s.len() { e + 1 } else { s.len() as int };
        lemma_lines_from_len(s, next);
    }
}

/// Index of the first non-whitespace byte at or after `i`, or `l.len()`.
pub open spec fn next_token_start(l: Seq<u8>, i: int) -> int
    decreases l.len() - i when 0 <= i <= l.len()
{
    if i >= l.len() {
        l.len() as int
    } else if is_space(l[i]) {
        next_token_start(l, i + 1)
    } else {
        i
    }
}

/// Index of the first whitespace byte at or after `i`, or `l.len()`.
pub open spec fn token_end(l: Seq<u8>, i: int) -> int
    decreases l.len() - i when 0 <= i <= l.len()
{
    if i >= l.len() {
        l.len() as int
    } else if is_space(l[i]) {
        i
    } else {
        token_end(l, i + 1)
    }
}

/// `next_token_start` stays within bounds, lands on a non-space unless it
/// reaches the end, and skips only spaces.
pub proof fn lemma_next_token_start(l: Seq<u8>, i: int)
    requires
        0 <= i <= l.len(),
    ensures
        i <= next_token_start(l, i) <= l.len(),
        next_token_start(l, i) < l.len() ==> !is_space(l[next_token_start(l, i)]),
        forall|j: int| i <= j < next_token_start(l, i) ==> is_space(l[j]),
    decreases l.len() - i,
{
    if i < l.len() && is_space(l[i]) {
        lemma_next_token_start(l, i + 1);
    }
}

/// `token_end` stays within bounds, lands on a space unless it reaches the
/// end, and skips only non-spaces.
pub proof fn lemma_token_end(l: Seq<u8>, i: int)
    requires
        0 <= i <= l.len(),
    ensures
        i <= token_end(l, i) <= l.len(),
        token_end(l, i) < l.len() ==> is_space(l[token_end(l, i)]),
        forall|j: int| i <= j < token_end(l, i) ==> !is_space(l[j]),
    decreases l.len() - i,
{
    if i < l.len() && !is_space(l[i]) {
        lemma_token_end(l, i + 1);
    }
}

/// The whitespace-separated tokens of `l` from position `i` on.
pub open spec fn tokens_from(l: Seq<u8>, i: int) -> Seq<Seq<u8>>
    decreases l.len() - i when 0 <= i <= l.len()
{
    let j = next_token_start(l, i);
    if j >= l.len() {
        Seq::empty()
    } else {
        proof {
            lemma_next_token_start(l, i);
            lemma_token_end(l, j + 1);
        }
        seq![l.subrange(j, token_end(l, j))] + tokens_from(l, token_end(l, j))
    }
}

/// The whitespace-separated tokens of `l`.
pub open spec fn tokens(l: Seq<u8>) -> Seq<Seq<u8>> {
    tokens_from(l, 0)
}

/// Value of a run of ASCII digits read as a decimal numeral.
pub open spec fn decimal_value(t: Seq<u8>) -> int
    decreases t.len(),
{
    if t.len() == 0 {
        0
    } else {
        decimal_value(t.drop_last()) * 10 + (t.last() - 48)
    }
}

/// Is `t` a non-empty run of ASCII digits?
pub open spec fn all_digits(t: Seq<u8>) -> bool {
    t.len() > 0 && forall|k: int| 0 <= k < t.len() ==> is_digit(#[trigger] t[k])
}

/// Does `t` spell an unsigned 32-bit decimal integer?
pub open spec fn is_u32_numeral(t: Seq<u8>) -> bool {
    all_digits(t) && decimal_value(t) <= u32::MAX
}

/// A well-formed table line: exactly three whitespace-separated fields,
/// each an unsigned 32-bit decimal numeral.
pub open spec fn wf_line(l: Seq<u8>) -> bool {
    let ts = tokens(l);
    &&& ts.len() == 3
    &&& is_u32_numeral(ts[0])
    &&& is_u32_numeral(ts[1])
    &&& is_u32_numeral(ts[2])
}

/// The extent a well-formed line denotes: its fields in the order
/// `(upper first, lower first, count)`.
pub open spec fn line_extent(l: Seq<u8>) -> Extent {
    Extent {
        first: decimal_value(tokens(l)[0]) as u32,
        lower_first: decimal_value(tokens(l)[1]) as u32,
        count: decimal_value(tokens(l)[2]) as u32,
    }
}

/// Every line of the input is well formed.
pub open spec fn wf_input(s: Seq<u8>) -> bool {
    forall|k: int| 0 <= k < spec_lines(s).len() ==> wf_line(#[trigger] spec_lines(s)[k])
}

/// Index of the first line that is not well formed (the sequence's length
/// when every line is).
pub open spec fn first_bad_index(ls: Seq<Seq<u8>>) -> int
    decreases ls.len(),
{
    if ls.len() == 0 {
        0
    } else if !wf_line(ls[0]) {
        0
    } else {
        1 + first_bad_index(ls.drop_first())
    }
}

/// `first_bad_index` names the position of the first ill-formed line.
pub proof fn lemma_first_bad_at(ls: Seq<Seq<u8>>, m: int)
    requires
        0 <= m < ls.len(),
        forall|k: int| 0 <= k < m ==> wf_line(#[trigger] ls[k]),
        !wf_line(ls[m]),
    ensures
        first_bad_index(ls) == m,
    decreases m,
{
    if m > 0 {
        assert(wf_line(ls[0]));
        assert(forall|k: int| 0 <= k < m - 1 ==> ls.drop_first()[k] == #[trigger] ls[k + 1]);
        lemma_first_bad_at(ls.drop_first(), m - 1);
    }
}

/// The extent table a fully well-formed input denotes: one extent per
/// line, in file order.
pub open spec fn spec_extents(s: Seq<u8>) -> Seq<Extent> {
    spec_lines(s).map_values(|l: Seq<u8>| line_extent(l))
}

/// `m` is the table that a successful parse of `s` tagged `kind` yields.
pub open spec fn parses_to(s: Seq<u8>, kind: Kind, m: IdMap) -> bool {
    &&& wf_input(s)
    &&& m.map_kind() == kind
    &&& m.extents() == spec_extents(s)
}

/// Index just past the line that starts at `from`: the first newline at or
/// after `from`, or the end of the input.
fn find_line_end(s: &[u8], from: usize) -> (j: usize)
    requires
        from <= s@.len(),
    ensures
        j as int == line_end(s@, from as int),
        from <= j <= s@.len(),
{
    let mut j = from;
    while j < s.len() && s[j] != 10
        invariant
            from <= j <= s@.len(),
            line_end(s@, from as int) == line_end(s@, j as int),
        decreases s@.len() - j,
    {
        j += 1;
    }
    j
}

/// Index of the first non-whitespace byte at or after `from`.
fn find_token_start(l: &[u8], from: usize) -> (j: usize)
    requires
        from <= l@.len(),
    ensures
        j as int == next_token_start(l@, from as int),
        from <= j <= l@.len(),
{
    let mut j = from;
    while j < l.len() && (l[j] == 32 || (9 <= l[j] && l[j] <= 13))
        invariant
            from <= j <= l@.len(),
            next_token_start(l@, from as int) == next_token_start(l@, j as int),
        decreases l@.len() - j,
    {
        j += 1;
    }
    j
}

/// A digit run's value is non-negative.
proof fn lemma_decimal_value_nonneg(t: Seq<u8>)
    requires
        forall|k: int| 0 <= k < t.len() ==> is_digit(#[trigger] t[k]),
    ensures
        decimal_value(t) >= 0,
    decreases t.len(),
{
    if t.len() > 0 {
        assert(forall|k: int| 0 <= k < t.len() - 1 ==> t.drop_last()[k] == #[trigger] t[k]);
        lemma_decimal_value_nonneg(t.drop_last());
    }
}

/// Reading more digits never shrinks the value: the value of a prefix of a
/// digit run is at most the value of the whole run.
proof fn lemma_decimal_prefix_le(t: Seq<u8>, a: int)
    requires
        0 <= a <= t.len(),
        forall|k: int| 0 <= k < t.len() ==> is_digit(#[trigger] t[k]),
    ensures
        decimal_value(t.take(a)) <= decimal_value(t),
    decreases t.len() - a,
{
    if a == t.len() {
        assert(t.take(a) =~= t);
    } else {
        lemma_decimal_prefix_le(t, a + 1);
        assert(t.take(a + 1).drop_last() =~= t.take(a));
        assert(t.take(a + 1).last() == t[a]);
        assert(forall|k: int| 0 <= k < a ==> t.take(a)[k] == #[trigger] t[k]);
        lemma_decimal_value_nonneg(t.take(a));
        assert(decimal_value(t.take(a + 1)) == decimal_value(t.take(a)) * 10 + (t[a] - 48));
    }
}

/// Read a whole field as an unsigned 32-bit decimal numeral.  Returns
/// `None` when the field is empty, holds a non-digit, or exceeds
/// `u32::MAX`.
fn parse_u32_field(t: &[u8]) -> (r: Option<u32>)
    ensures
        match r {
            Some(v) => is_u32_numeral(t@) && decimal_value(t@) == v,
            None => !is_u32_numeral(t@),
        },
{
    if t.len() == 0 {
        return None;
    }
    let mut v: u32 = 0;
    let mut i: usize = 0;
    proof {
        assert(t@.take(0) =~= Seq::<u8>::empty());
    }
    while i < t.len()
        invariant
            i <= t@.len(),
            forall|k: int| 0 <= k < i ==> is_digit(#[trigger] t@[k]),
            decimal_value(t@.take(i as int)) == v,
        decreases t@.len() - i,
    {
        let b = t[i];
        if b < 48 || b > 57 {
            return None;
        }
        let d = (b - 48) as u32;
        if v < 429_496_729 || (v == 429_496_729 && d <= 5) {
            proof {
                assert(t@.take(i + 1).drop_last() =~= t@.take(i as int));
                assert(t@.take(i + 1).last() == t@[i as int]);
            }
            v = v * 10 + d;
            i += 1;
        } else {
            // A digit run extending this prefix is worth more than u32::MAX.
            proof {
                assert(t@.take(i + 1).drop_last() =~= t@.take(i as int));
                assert(t@.take(i + 1).last() == t@[i as int]);
                assert(decimal_value(t@.take(i + 1)) > u32::MAX);
                if all_digits(t@) {
                    lemma_decimal_prefix_le(t@, i + 1);
                }
            }
            return None;
        }
    }
    proof {
        assert(t@.take(t@.len() as int) =~= t@);
    }
    Some(v)
}

/// Index of the first whitespace byte at or after `from`.
fn find_token_end(l: &[u8], from: usize) -> (j: usize)
    requires
        from <= l@.len(),
    ensures
        j as int == token_end(l@, from as int),
        from <= j <= l@.len(),
{
    let mut j = from;
    while j < l.len() && !(l[j] == 32 || (9 <= l[j] && l[j] <= 13))
        invariant
            from <= j <= l@.len(),
            token_end(l@, from as int) == token_end(l@, j as int),
        decreases l@.len() - j,
    {
        j += 1;
    }
    j
}

/// Dropping the head of a suffix shifts the suffix's start by one.
proof fn lemma_skip_succ<A>(s: Seq<A>, k: int)
    requires
        0 <= k < s.len(),
    ensures
        s.skip(k).drop_first() =~= s.skip(k + 1),
{
}

/// Parse one line into an extent: exactly three whitespace-separated
/// unsigned 32-bit decimal fields, in the order
/// `(upper first, lower first, count)`.
fn parse_line_extent(l: &[u8]) -> (r: Option<Extent>)
    ensures
        match r {
            Some(e) => wf_line(l@) && e == line_extent(l@),
            None => !wf_line(l@),
        },
{
    let mut vals: [u32; 3] = [0u32; 3];
    let mut nvals: usize = 0;
    let mut i: usize = 0;
    proof {
        assert(tokens(l@).skip(0) =~= tokens(l@));
    }
    while i < l.len()
        invariant
            i <= l@.len(),
            nvals <= 3,
            nvals as int <= tokens(l@).len(),
            tokens_from(l@, i as int) == tokens(l@).skip(nvals as int),
            forall|k: int|
                0 <= k < nvals ==> is_u32_numeral(#[trigger] tokens(l@)[k]) && decimal_value(
                    tokens(l@)[k],
                ) == vals@[k],
        decreases l@.len() - i,
    {
        let j = find_token_start(l, i);
        if j >= l.len() {
            // No token remains; the line's tokens are exactly the fields
            // already read.
            proof {
                assert(tokens_from(l@, i as int) =~= Seq::<Seq<u8>>::empty());
            }
            i = l.len();
        } else {
            if nvals == 3 {
                // A fourth field: the line cannot be well formed.
                proof {
                    assert(tokens_from(l@, i as int).len() > 0);
                    assert(tokens(l@).len() > 3);
                }
                return None;
            }
            let k = find_token_end(l, j);
            proof {
                lemma_next_token_start(l@, i as int);
                lemma_token_end(l@, j as int);
                assert(tokens_from(l@, i as int) == seq![l@.subrange(j as int, k as int)]
                    + tokens_from(l@, k as int));
                assert(tokens(l@).skip(nvals as int)[0] == tokens(l@)[nvals as int]);
                assert(tokens(l@)[nvals as int] == l@.subrange(j as int, k as int));
            }
            let field = vstd::slice::slice_subrange(l, j, k);
            match parse_u32_field(field) {
                Some(v) => {
                    proof {
                        lemma_skip_succ(tokens(l@), nvals as int);
                        assert(tokens(l@).skip(nvals as int).drop_first() =~= tokens_from(
                            l@,
                            k as int,
                        ));
                    }
                    vals[nvals] = v;
                    nvals += 1;
                    i = k;
                }
                None => {
                    // Field `nvals` is not an unsigned 32-bit numeral, so
                    // the line is ill formed whatever follows.
                    return None;
                }
            }
        }
    }
    proof {
        assert(tokens_from(l@, l@.len() as int) =~= Seq::<Seq<u8>>::empty());
        assert(tokens(l@).skip(nvals as int).len() == 0);
        assert(tokens(l@).len() == nvals as int);
    }
    if nvals == 3 {
        Some(Extent { first: vals[0], lower_first: vals[1], count: vals[2] })
    } else {
        None
    }
}

/// How many lines `input` holds, counted exactly as the parser reads them.
///
/// Callers that cannot bound their input ahead of time check this against
/// [`crate::idmap::MAX_EXTENTS`] before calling [`IdMap::parse`].
pub fn line_count(input: &[u8]) -> (n: usize)
    ensures
        n as int == spec_lines(input@).len(),
{
    let mut n: usize = 0;
    let mut i: usize = 0;
    proof {
        assert(spec_lines(input@).skip(0) =~= spec_lines(input@));
        lemma_lines_from_len(input@, 0);
    }
    while i < input.len()
        invariant
            i <= input@.len(),
            n as int <= spec_lines(input@).len() <= input@.len(),
            lines_from(input@, i as int) == spec_lines(input@).skip(n as int),
        decreases input@.len() - i,
    {
        let j = find_line_end(input, i);
        proof {
            assert(lines_from(input@, i as int).len() >= 1);
            assert((n as int) < spec_lines(input@).len());
            assert(lines_from(input@, i as int)[0] == input@.subrange(i as int, j as int));
            lemma_skip_succ(spec_lines(input@), n as int);
            assert(spec_lines(input@).skip(n as int).drop_first() =~= lines_from(
                input@,
                if j + 1 <= input@.len() {
                    j + 1
                } else {
                    input@.len() as int
                },
            ));
        }
        n += 1;
        i = if j < input.len() {
            j + 1
        } else {
            j
        };
    }
    proof {
        assert(spec_lines(input@).skip(n as int).len() == 0);
    }
    n
}

impl IdMap {
    /// Parse the textual contents of an id-map resource into a table
    /// tagged `kind`.
    ///
    /// Every line must hold exactly three whitespace-separated unsigned
    /// 32-bit decimal integers; lines become extents in file order.  On
    /// the first ill-formed line the parse stops and reports that line
    /// together with the kind.
    ///
    /// The kernel never emits more than [`crate::idmap::MAX_EXTENTS`]
    /// lines; a caller that cannot rely on that checks [`line_count`]
    /// first.
    pub fn parse(input: &[u8], kind: Kind) -> (r: Result<IdMap, ParseError>)
        requires
            spec_lines(input@).len() <= crate::idmap::MAX_EXTENTS,
        ensures
            match r {
                Ok(m) => parses_to(input@, kind, m),
                Err(e) => {
                    let ls = spec_lines(input@);
                    &&& !wf_input(input@)
                    &&& e.kind == kind
                    &&& 0 <= first_bad_index(ls) < ls.len()
                    &&& e.line@ == ls[first_bad_index(ls)]
                },
            },
    {
        let mut found: Vec<Extent> = Vec::new();
        let mut i: usize = 0;
        proof {
            assert(spec_lines(input@).skip(0) =~= spec_lines(input@));
        }
        while i < input.len()
            invariant
                i <= input@.len(),
                spec_lines(input@).len() <= 5,
                found@.len() as int <= spec_lines(input@).len(),
                lines_from(input@, i as int) == spec_lines(input@).skip(found@.len() as int),
                forall|k: int|
                    0 <= k < found@.len() ==> wf_line(#[trigger] spec_lines(input@)[k])
                        && found@[k] == line_extent(spec_lines(input@)[k]),
            decreases input@.len() - i,
        {
            let ghost cur = found@.len() as int;
            let j = find_line_end(input, i);
            proof {
                assert(lines_from(input@, i as int).len() >= 1);
                assert(cur < spec_lines(input@).len());
                assert(lines_from(input@, i as int)[0] == input@.subrange(i as int, j as int));
                assert(spec_lines(input@)[cur] == input@.subrange(i as int, j as int));
            }
            let line = vstd::slice::slice_subrange(input, i, j);
            match parse_line_extent(line) {
                Some(e) => {
                    proof {
                        lemma_skip_succ(spec_lines(input@), cur);
                        assert(spec_lines(input@).skip(cur).drop_first() =~= lines_from(
                            input@,
                            if j + 1 <= input@.len() {
                                j + 1
                            } else {
                                input@.len() as int
                            },
                        ));
                    }
                    found.push(e);
                    i = if j < input.len() {
                        j + 1
                    } else {
                        j
                    };
                }
                None => {
                    proof {
                        lemma_first_bad_at(spec_lines(input@), cur);
                        assert(!wf_line(spec_lines(input@)[cur]));
                    }
                    return Err(ParseError { kind, line: vstd::slice::slice_to_vec(line) });
                }
            }
        }
        proof {
            assert(spec_lines(input@).skip(found@.len() as int).len() == 0);
            assert(found@.len() as int == spec_lines(input@).len());
            assert(found@ =~= spec_extents(input@));
        }
        match IdMap::from_extents(kind, &found) {
            Some(m) => Ok(m),
            None => vstd::pervasive::unreached(),
        }
    }
}

} // verus!
