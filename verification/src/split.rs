//! Field production: the splitting policies that turn one decoded unit
//! into the ordered fields bound to the destination slots.
//!
//! Five policies exist: per-character splitting, splitting about an
//! explicit delimiter string, legacy separator-set tokenization (each
//! character of the separator string splits independently), shell-word
//! token assignment (the tokens themselves come from the external
//! tokenizer), and array aggregation, which hands all fields of the
//! selected policy to a single slot.

use vstd::prelude::*;

verus! {

/// The text of each field in a list of fields.
pub open spec fn field_views(v: Seq<Vec<char>>) -> Seq<Seq<char>> {
    v.map_values(|f: Vec<char>| f@)
}

/// Appending a field appends its text.
pub proof fn lemma_field_views_push(v: Seq<Vec<char>>, f: Vec<char>)
    ensures
        field_views(v.push(f)) == field_views(v).push(f@),
{
    assert(field_views(v.push(f)) =~= field_views(v).push(f@));
}

/// Each character of `u` as its own field.
pub open spec fn singles(u: Seq<char>) -> Seq<Seq<char>> {
    u.map_values(|c: char| seq![c])
}

/// Per-character fields: every character is a field of its own, except
/// that outside array mode, when there are more characters than slots, the
/// last slot takes the whole remaining tail as one field.
pub open spec fn per_char_fields(u: Seq<char>, nslots: nat, array: bool) -> Seq<Seq<char>>
    recommends
        array || nslots >= 1,
{
    if array || u.len() <= nslots {
        singles(u)
    } else {
        singles(u.take(nslots - 1)) + seq![u.skip(nslots - 1)]
    }
}

/// A field holding the single character `c`.
fn single_field(c: char) -> (f: Vec<char>)
    ensures
        f@ == seq![c],
{
    let mut f: Vec<char> = Vec::new();
    f.push(c);
    proof {
        assert(f@ =~= seq![c]);
    }
    f
}

/// The characters of `u` between `from` and `to`, as one field.
fn range_field(u: &Vec<char>, from: usize, to: usize) -> (f: Vec<char>)
    requires
        from <= to <= u.len(),
    ensures
        f@ == u@.subrange(from as int, to as int),
{
    let mut f: Vec<char> = Vec::new();
    let mut i: usize = from;
    while i < to
        invariant
            from <= i <= to <= u.len(),
            f@ == u@.subrange(from as int, i as int),
        decreases to - i,
    {
        let c = u[i];
        f.push(c);
        proof {
            assert(u@.subrange(from as int, i + 1 as int) =~= u@.subrange(from as int, i as int)
                .push(u@[i as int]));
        }
        i = i + 1;
    }
    f
}

/// The characters of `u` from index `from` on, as one field.
pub(crate) fn tail_field(u: &Vec<char>, from: usize) -> (f: Vec<char>)
    requires
        from <= u.len(),
    ensures
        f@ == u@.skip(from as int),
{
    let f = range_field(u, from, u.len());
    proof {
        assert(u@.subrange(from as int, u@.len() as int) =~= u@.skip(from as int));
    }
    f
}

/// Split `unit` into per-character fields.
pub fn split_per_char(unit: &Vec<char>, nslots: usize, array: bool) -> (r: Vec<Vec<char>>)
    requires
        array || nslots >= 1,
    ensures
        field_views(r@) == per_char_fields(unit@, nslots as nat, array),
{
    let mut out: Vec<Vec<char>> = Vec::new();
    let lim: usize = if array || unit.len() <= nslots {
        unit.len()
    } else {
        nslots - 1
    };
    let mut i: usize = 0;
    while i < lim
        invariant
            i <= lim <= unit.len(),
            field_views(out@) == singles(unit@.take(i as int)),
        decreases lim - i,
    {
        let ghost out_old = out@;
        let f = single_field(unit[i]);
        out.push(f);
        proof {
            lemma_field_views_push(out_old, f);
            assert(singles(unit@.take(i + 1 as int)) =~= singles(unit@.take(i as int)).push(
                seq![unit@[i as int]],
            ));
        }
        i = i + 1;
    }
    if !(array || unit.len() <= nslots) {
        let ghost out_old = out@;
        let f = tail_field(unit, nslots - 1);
        out.push(f);
        proof {
            lemma_field_views_push(out_old, f);
            assert(field_views(out@) =~= per_char_fields(unit@, nslots as nat, array));
        }
    } else {
        proof {
            assert(unit@.take(unit@.len() as int) =~= unit@);
        }
    }
    out
}

/// Index of the first occurrence of `d` as a contiguous subsequence of `s`.
pub open spec fn find_sub(s: Seq<char>, d: Seq<char>) -> Option<int>
    recommends
        d.len() >= 1,
    decreases s.len(),
{
    if d.len() > s.len() {
        None
    } else if s.take(d.len() as int) == d {
        Some(0)
    } else if s.len() == 0 {
        None
    } else {
        match find_sub(s.drop_first(), d) {
            Some(i) => Some(i + 1),
            None => None,
        }
    }
}

/// What `find_sub` returns is the first occurrence.
pub proof fn lemma_find_sub_char(s: Seq<char>, d: Seq<char>)
    requires
        d.len() >= 1,
    ensures
        match find_sub(s, d) {
            Some(i) => 0 <= i && i + d.len() <= s.len() && s.subrange(i, i + d.len()) == d && (
            forall|j: int| 0 <= j < i ==> #[trigger] s.subrange(j, j + d.len()) != d),
            None => forall|j: int|
                0 <= j && j + d.len() <= s.len() ==> #[trigger] s.subrange(j, j + d.len()) != d,
        },
    decreases s.len(),
{
    if d.len() > s.len() {
        assert forall|j: int| 0 <= j && j + d.len() <= s.len() implies #[trigger] s.subrange(
            j,
            j + d.len(),
        ) != d by {}
    } else if s.take(d.len() as int) == d {
        assert(s.subrange(0, d.len() as int) =~= s.take(d.len() as int));
    } else {
        lemma_find_sub_char(s.drop_first(), d);
        assert forall|j: int| 1 <= j && j + d.len() <= s.len() implies #[trigger] s.subrange(
            j,
            j + d.len(),
        ) =~= s.drop_first().subrange(j - 1, j - 1 + d.len()) by {}
        assert(s.subrange(0, d.len() as int) =~= s.take(d.len() as int));
    }
}

/// A first occurrence determines `find_sub`.
pub proof fn lemma_find_sub_at(s: Seq<char>, d: Seq<char>, i: int)
    requires
        d.len() >= 1,
        0 <= i,
        i + d.len() <= s.len(),
        s.subrange(i, i + d.len()) == d,
        forall|j: int| 0 <= j < i ==> #[trigger] s.subrange(j, j + d.len()) != d,
    ensures
        find_sub(s, d) == Some(i),
{
    lemma_find_sub_char(s, d);
    match find_sub(s, d) {
        Some(k) => {
            if k < i {
                assert(s.subrange(k, k + d.len()) != d);
            } else if k > i {
                assert(s.subrange(i, i + d.len()) != d);
            }
        },
        None => {
            assert(s.subrange(i, i + d.len()) != d);
        },
    }
}

/// Absence everywhere determines `find_sub`.
pub proof fn lemma_find_sub_none(s: Seq<char>, d: Seq<char>)
    requires
        d.len() >= 1,
        forall|j: int|
            0 <= j && j + d.len() <= s.len() ==> #[trigger] s.subrange(j, j + d.len()) != d,
    ensures
        find_sub(s, d) is None,
{
    lemma_find_sub_char(s, d);
    match find_sub(s, d) {
        Some(k) => {
            assert(s.subrange(k, k + d.len()) != d);
        },
        None => {},
    }
}

/// Splitting about a delimiter string: at most `max` cuts are made, each
/// at the first remaining occurrence of the delimiter, and the final piece
/// absorbs everything after the last cut.
pub open spec fn split_about_spec(s: Seq<char>, d: Seq<char>, max: nat) -> Seq<Seq<char>>
    recommends
        d.len() >= 1,
    decreases max,
{
    if max == 0 {
        seq![s]
    } else {
        match find_sub(s, d) {
            None => seq![s],
            Some(i) => seq![s.take(i)] + split_about_spec(s.skip(i + d.len()), d, (max - 1) as nat),
        }
    }
}

/// Splitting yields at least one piece and at most `max + 1`.
pub proof fn lemma_split_about_count(s: Seq<char>, d: Seq<char>, max: nat)
    ensures
        1 <= split_about_spec(s, d, max).len() <= max + 1,
    decreases max,
{
    if max > 0 {
        match find_sub(s, d) {
            None => {},
            Some(i) => {
                lemma_split_about_count(s.skip(i + d.len()), d, (max - 1) as nat);
            },
        }
    }
}

/// Joining pieces with the delimiter between them.
pub open spec fn join_with(ps: Seq<Seq<char>>, d: Seq<char>) -> Seq<char>
    decreases ps.len(),
{
    if ps.len() == 0 {
        seq![]
    } else if ps.len() == 1 {
        ps[0]
    } else {
        ps[0] + d + join_with(ps.drop_first(), d)
    }
}

/// Splitting partitions the input: joining the pieces with the delimiter
/// restores the original unit exactly.
pub proof fn lemma_split_about_join(s: Seq<char>, d: Seq<char>, max: nat)
    requires
        d.len() >= 1,
    ensures
        join_with(split_about_spec(s, d, max), d) == s,
    decreases max,
{
    if max == 0 {
    } else {
        match find_sub(s, d) {
            None => {},
            Some(i) => {
                lemma_find_sub_char(s, d);
                let rest = s.skip(i + d.len());
                lemma_split_about_join(rest, d, (max - 1) as nat);
                lemma_split_about_count(rest, d, (max - 1) as nat);
                let ps = seq![s.take(i)] + split_about_spec(rest, d, (max - 1) as nat);
                assert(ps.len() >= 2);
                assert(ps[0] == s.take(i));
                assert(ps.drop_first() =~= split_about_spec(rest, d, (max - 1) as nat));
                assert(join_with(ps, d) == s.take(i) + d + rest);
                assert(s.subrange(i, i + d.len()) == d);
                assert(s.take(i) + d + rest =~= s);
            },
        }
    }
}

/// Splitting is idempotent: splitting the join of an earlier split, with
/// the same delimiter and the same cut allowance, reproduces the same
/// fields.
pub proof fn lemma_split_about_round_trip(s: Seq<char>, d: Seq<char>, max: nat)
    requires
        d.len() >= 1,
    ensures
        split_about_spec(join_with(split_about_spec(s, d, max), d), d, max) == split_about_spec(
            s,
            d,
            max,
        ),
{
    lemma_split_about_join(s, d, max);
}

/// True when `d` occurs in `u` at offset `at`.
fn match_at(u: &Vec<char>, d: &Vec<char>, at: usize) -> (r: bool)
    requires
        at + d.len() <= u.len(),
    ensures
        r == (u@.subrange(at as int, at + d@.len()) == d@),
{
    let mut t: usize = 0;
    while t < d.len()
        invariant
            t <= d.len(),
            at + d.len() <= u.len(),
            forall|m: int| 0 <= m < t ==> u@[at + m] == d@[m],
        decreases d.len() - t,
    {
        if u[at + t] != d[t] {
            proof {
                assert(u@.subrange(at as int, at + d@.len())[t as int] == u@[at + t]);
            }
            return false;
        }
        t = t + 1;
    }
    proof {
        assert(u@.subrange(at as int, at + d@.len()) =~= d@);
    }
    true
}

/// First occurrence of `d` in `u` at or after `from`.
fn find_sub_from(u: &Vec<char>, d: &Vec<char>, from: usize) -> (r: Option<usize>)
    requires
        d.len() >= 1,
        from <= u.len(),
    ensures
        match r {
            Some(i) => from <= i && find_sub(u@.skip(from as int), d@) == Some(i - from as int),
            None => find_sub(u@.skip(from as int), d@) is None,
        },
{
    let ghost s = u@.skip(from as int);
    if u.len() - from < d.len() {
        proof {
            assert forall|j: int| 0 <= j && j + d@.len() <= s.len() implies #[trigger] s.subrange(
                j,
                j + d@.len(),
            ) != d@ by {}
            lemma_find_sub_none(s, d@);
        }
        return None;
    }
    let last_start: usize = u.len() - d.len();
    let mut i: usize = from;
    while i <= last_start
        invariant
            d.len() >= 1,
            from <= i,
            last_start == u.len() - d.len(),
            from <= last_start,
            i <= last_start + 1,
            s == u@.skip(from as int),
            forall|j: int| 0 <= j < i - from ==> #[trigger] s.subrange(j, j + d@.len()) != d@,
        decreases last_start + 1 - i,
    {
        if match_at(u, d, i) {
            proof {
                assert(s.subrange(i - from, i - from + d@.len()) =~= u@.subrange(
                    i as int,
                    i + d@.len(),
                ));
                lemma_find_sub_at(s, d@, i - from as int);
            }
            return Some(i);
        }
        proof {
            assert(s.subrange(i - from, i - from + d@.len()) =~= u@.subrange(
                i as int,
                i + d@.len(),
            ));
        }
        i = i + 1;
    }
    proof {
        assert forall|j: int| 0 <= j && j + d@.len() <= s.len() implies #[trigger] s.subrange(
            j,
            j + d@.len(),
        ) != d@ by {}
        lemma_find_sub_none(s, d@);
    }
    None
}

/// Split `unit` about the delimiter string `d`, making at most `max` cuts;
/// the final piece takes the remainder.
pub fn split_about(unit: &Vec<char>, d: &Vec<char>, max: usize) -> (r: Vec<Vec<char>>)
    requires
        d.len() >= 1,
    ensures
        field_views(r@) == split_about_spec(unit@, d@, max as nat),
{
    let mut out: Vec<Vec<char>> = Vec::new();
    let mut start: usize = 0;
    let mut cuts: usize = 0;
    proof {
        assert(unit@.skip(0) =~= unit@);
        assert(field_views(out@) + split_about_spec(unit@, d@, max as nat) =~= split_about_spec(
            unit@,
            d@,
            max as nat,
        ));
    }
    loop
        invariant_except_break
            d.len() >= 1,
            start <= unit.len(),
            cuts <= max,
            split_about_spec(unit@, d@, max as nat) == field_views(out@) + split_about_spec(
                unit@.skip(start as int),
                d@,
                (max - cuts) as nat,
            ),
        ensures
            start <= unit.len(),
            split_about_spec(unit@, d@, max as nat) == field_views(out@) + seq![
                unit@.skip(start as int),
            ],
        decreases max - cuts,
    {
        let ghost pending = split_about_spec(unit@.skip(start as int), d@, (max - cuts) as nat);
        if cuts == max {
            break ;
        }
        match find_sub_from(unit, d, start) {
            None => {
                break ;
            },
            Some(i) => {
                proof {
                    lemma_find_sub_char(unit@.skip(start as int), d@);
                }
                let ghost out_old = out@;
                let piece = range_field(unit, start, i);
                out.push(piece);
                proof {
                    lemma_field_views_push(out_old, piece);
                    assert(unit@.skip(start as int).take(i - start as int) =~= unit@.subrange(
                        start as int,
                        i as int,
                    ));
                    assert(unit@.skip(start as int).skip(i - start + d@.len()) =~= unit@.skip(
                        i + d@.len(),
                    ));
                    assert(pending == seq![unit@.subrange(start as int, i as int)]
                        + split_about_spec(unit@.skip(i + d@.len()), d@, (max - cuts - 1) as nat));
                    assert(field_views(out_old) + pending =~= field_views(out@) + split_about_spec(
                        unit@.skip(i + d@.len()),
                        d@,
                        (max - cuts - 1) as nat,
                    ));
                }
                start = i + d.len();
                cuts = cuts + 1;
            },
        }
    }
    let ghost out_old = out@;
    let lastp = tail_field(unit, start);
    out.push(lastp);
    proof {
        lemma_field_views_push(out_old, lastp);
        assert(field_views(out_old) + seq![unit@.skip(start as int)] =~= field_views(out@));
    }
    out
}

/// True when `seps` holds `c`.
fn is_sep_char(c: char, seps: &Vec<char>) -> (r: bool)
    ensures
        r == seps@.contains(c),
{
    let mut i: usize = 0;
    while i < seps.len()
        invariant
            i <= seps.len(),
            forall|j: int| 0 <= j < i ==> seps@[j] != c,
        decreases seps.len() - i,
    {
        if seps[i] == c {
            return true;
        }
        i = i + 1;
    }
    false
}

/// Number of leading characters of `s` that are separators.
pub open spec fn skip_seps(s: Seq<char>, seps: Seq<char>) -> int
    decreases s.len(),
{
    if s.len() == 0 {
        0
    } else if seps.contains(s[0]) {
        1 + skip_seps(s.drop_first(), seps)
    } else {
        0
    }
}

/// A run of separators followed by a non-separator (or the end) determines
/// `skip_seps`.
pub proof fn lemma_skip_seps_at(s: Seq<char>, seps: Seq<char>, k: int)
    requires
        0 <= k <= s.len(),
        forall|m: int| 0 <= m < k ==> seps.contains(#[trigger] s[m]),
        k < s.len() ==> !seps.contains(s[k]),
    ensures
        skip_seps(s, seps) == k,
    decreases s.len(),
{
    if s.len() == 0 {
    } else if k == 0 {
    } else {
        assert(seps.contains(s[0]));
        assert forall|m: int| 0 <= m < k - 1 implies seps.contains(#[trigger] s.drop_first()[m]) by {
            assert(s.drop_first()[m] == s[m + 1]);
        }
        assert(k - 1 < s.drop_first().len() ==> s.drop_first()[k - 1] == s[k]);
        lemma_skip_seps_at(s.drop_first(), seps, k - 1);
    }
}

/// Number of leading characters of `s` that are not separators.
pub open spec fn next_sep(s: Seq<char>, seps: Seq<char>) -> int
    decreases s.len(),
{
    if s.len() == 0 {
        0
    } else if !seps.contains(s[0]) {
        1 + next_sep(s.drop_first(), seps)
    } else {
        0
    }
}

/// A run of non-separators followed by a separator (or the end) determines
/// `next_sep`.
pub proof fn lemma_next_sep_at(s: Seq<char>, seps: Seq<char>, k: int)
    requires
        0 <= k <= s.len(),
        forall|m: int| 0 <= m < k ==> !seps.contains(#[trigger] s[m]),
        k < s.len() ==> seps.contains(s[k]),
    ensures
        next_sep(s, seps) == k,
    decreases s.len(),
{
    if s.len() == 0 {
    } else if k == 0 {
    } else {
        assert(!seps.contains(s[0]));
        assert forall|m: int| 0 <= m < k - 1 implies !seps.contains(
            #[trigger] s.drop_first()[m],
        ) by {
            assert(s.drop_first()[m] == s[m + 1]);
        }
        assert(k - 1 < s.drop_first().len() ==> s.drop_first()[k - 1] == s[k]);
        lemma_next_sep_at(s.drop_first(), seps, k - 1);
    }
}

/// `s` with trailing separators removed.
pub open spec fn trim_end_seps(s: Seq<char>, seps: Seq<char>) -> Seq<char>
    decreases s.len(),
{
    if s.len() > 0 && seps.contains(s.last()) {
        trim_end_seps(s.drop_last(), seps)
    } else {
        s
    }
}

/// A trailing run of separators determines `trim_end_seps`.
pub proof fn lemma_trim_end_at(s: Seq<char>, seps: Seq<char>, k: int)
    requires
        0 <= k <= s.len(),
        forall|m: int| k <= m < s.len() ==> seps.contains(#[trigger] s[m]),
        k > 0 ==> !seps.contains(s[k - 1]),
    ensures
        trim_end_seps(s, seps) == s.take(k),
    decreases s.len(),
{
    if k == s.len() {
        if s.len() > 0 && seps.contains(s.last()) {
            assert(false);
        }
        assert(s.take(k) =~= s);
    } else {
        assert(seps.contains(s.last()));
        assert forall|m: int| k <= m < s.drop_last().len() implies seps.contains(
            #[trigger] s.drop_last()[m],
        ) by {
            assert(s.drop_last()[m] == s[m]);
        }
        assert(k > 0 ==> s.drop_last()[k - 1] == s[k - 1]);
        lemma_trim_end_at(s.drop_last(), seps, k);
        assert(s.drop_last().take(k) =~= s.take(k));
    }
}

/// Legacy separator-set tokenization: tokens are maximal runs of
/// non-separator characters; at most `max` tokens are produced, the last
/// of which takes the whole remainder with its leading and trailing
/// separators removed.
pub open spec fn split_tok_spec(s: Seq<char>, seps: Seq<char>, max: nat) -> Seq<Seq<char>>
    decreases max,
{
    if max == 0 {
        seq![]
    } else {
        let i = skip_seps(s, seps);
        if i == s.len() {
            seq![]
        } else if max == 1 {
            seq![trim_end_seps(s.skip(i), seps)]
        } else {
            let k = i + next_sep(s.skip(i), seps);
            seq![s.subrange(i, k)] + split_tok_spec(s.skip(k), seps, (max - 1) as nat)
        }
    }
}

/// First index at or after `from` holding a non-separator.
fn skip_seps_from(u: &Vec<char>, seps: &Vec<char>, from: usize) -> (j: usize)
    requires
        from <= u.len(),
    ensures
        from <= j <= u.len(),
        j - from == skip_seps(u@.skip(from as int), seps@),
        j < u.len() ==> !seps@.contains(u@[j as int]),
{
    let mut i: usize = from;
    while i < u.len()
        invariant
            from <= i <= u.len(),
            forall|m: int| from <= m < i ==> seps@.contains(#[trigger] u@[m]),
        decreases u.len() - i,
    {
        if !is_sep_char(u[i], seps) {
            proof {
                let s = u@.skip(from as int);
                assert forall|m: int| 0 <= m < i - from implies seps.view().contains(
                    #[trigger] s[m],
                ) by {
                    assert(s[m] == u@[from + m]);
                }
                assert(s[i - from as int] == u@[i as int]);
                lemma_skip_seps_at(s, seps@, i - from as int);
            }
            return i;
        }
        i = i + 1;
    }
    proof {
        let s = u@.skip(from as int);
        assert forall|m: int| 0 <= m < s.len() implies seps.view().contains(#[trigger] s[m]) by {
            assert(s[m] == u@[from + m]);
        }
        lemma_skip_seps_at(s, seps@, s.len() as int);
    }
    u.len()
}

/// First index at or after `from` holding a separator.
fn next_sep_from(u: &Vec<char>, seps: &Vec<char>, from: usize) -> (j: usize)
    requires
        from <= u.len(),
    ensures
        from <= j <= u.len(),
        j - from == next_sep(u@.skip(from as int), seps@),
{
    let mut i: usize = from;
    while i < u.len()
        invariant
            from <= i <= u.len(),
            forall|m: int| from <= m < i ==> !seps@.contains(#[trigger] u@[m]),
        decreases u.len() - i,
    {
        if is_sep_char(u[i], seps) {
            proof {
                let s = u@.skip(from as int);
                assert forall|m: int| 0 <= m < i - from implies !seps.view().contains(
                    #[trigger] s[m],
                ) by {
                    assert(s[m] == u@[from + m]);
                }
                assert(s[i - from as int] == u@[i as int]);
                lemma_next_sep_at(s, seps@, i - from as int);
            }
            return i;
        }
        i = i + 1;
    }
    proof {
        let s = u@.skip(from as int);
        assert forall|m: int| 0 <= m < s.len() implies !seps.view().contains(#[trigger] s[m]) by {
            assert(s[m] == u@[from + m]);
        }
        lemma_next_sep_at(s, seps@, s.len() as int);
    }
    u.len()
}

/// The remainder of `u` from `from` on, with trailing separators removed.
fn trimmed_tail(u: &Vec<char>, seps: &Vec<char>, from: usize) -> (f: Vec<char>)
    requires
        from <= u.len(),
    ensures
        f@ == trim_end_seps(u@.skip(from as int), seps@),
{
    let mut end: usize = u.len();
    loop
        invariant_except_break
            from <= end <= u.len(),
            forall|m: int| end <= m < u.len() ==> seps@.contains(#[trigger] u@[m]),
        ensures
            from <= end <= u.len(),
            forall|m: int| end <= m < u.len() ==> seps@.contains(#[trigger] u@[m]),
            end > from ==> !seps@.contains(u@[end - 1]),
        decreases end,
    {
        if end == from {
            break ;
        }
        if !is_sep_char(u[end - 1], seps) {
            break ;
        }
        end = end - 1;
    }
    proof {
        let s = u@.skip(from as int);
        assert forall|m: int| end - from <= m < s.len() implies seps.view().contains(
            #[trigger] s[m],
        ) by {
            assert(s[m] == u@[from + m]);
        }
        if end > from {
            assert(s[end - from - 1] == u@[end - 1]);
        }
        lemma_trim_end_at(s, seps@, end - from as int);
    }
    let f = range_field(u, from, end);
    proof {
        assert(u@.skip(from as int).take(end - from as int) =~= u@.subrange(
            from as int,
            end as int,
        ));
    }
    f
}

/// Tokenize `unit` using each character of `seps` as an independent split
/// character, producing at most `max` tokens; the last token takes the
/// remainder, trimmed of separators at both ends.
pub fn split_string_tok(unit: &Vec<char>, seps: &Vec<char>, max: usize) -> (r: Vec<Vec<char>>)
    ensures
        field_views(r@) == split_tok_spec(unit@, seps@, max as nat),
{
    let mut out: Vec<Vec<char>> = Vec::new();
    let mut pos: usize = 0;
    let mut count: usize = 0;
    proof {
        assert(unit@.skip(0) =~= unit@);
        assert(field_views(out@) + split_tok_spec(unit@, seps@, max as nat) =~= split_tok_spec(
            unit@,
            seps@,
            max as nat,
        ));
    }
    loop
        invariant_except_break
            pos <= unit.len(),
            count <= max,
            split_tok_spec(unit@, seps@, max as nat) == field_views(out@) + split_tok_spec(
                unit@.skip(pos as int),
                seps@,
                (max - count) as nat,
            ),
        ensures
            split_tok_spec(unit@, seps@, max as nat) == field_views(out@),
        decreases max - count,
    {
        let ghost pending = split_tok_spec(unit@.skip(pos as int), seps@, (max - count) as nat);
        if count == max {
            proof {
                assert(field_views(out@) + pending =~= field_views(out@));
            }
            break ;
        }
        let i = skip_seps_from(unit, seps, pos);
        proof {
            assert(unit@.skip(pos as int).skip(i - pos as int) =~= unit@.skip(i as int));
        }
        if i == unit.len() {
            proof {
                assert(skip_seps(unit@.skip(pos as int), seps@) == unit@.skip(pos as int).len());
                assert(pending =~= Seq::<Seq<char>>::empty());
                assert(field_views(out@) + pending =~= field_views(out@));
            }
            break ;
        }
        if count + 1 == max {
            let ghost out_old = out@;
            let f = trimmed_tail(unit, seps, i);
            out.push(f);
            proof {
                lemma_field_views_push(out_old, f);
                let s = unit@.skip(pos as int);
                assert(trim_end_seps(s.skip(skip_seps(s, seps@)), seps@) == trim_end_seps(
                    unit@.skip(i as int),
                    seps@,
                ));
                assert(pending == seq![trim_end_seps(unit@.skip(i as int), seps@)]);
                assert(field_views(out_old) + pending =~= field_views(out@));
            }
            break ;
        }
        let k = next_sep_from(unit, seps, i);
        let ghost out_old = out@;
        let f = range_field(unit, i, k);
        out.push(f);
        proof {
            lemma_field_views_push(out_old, f);
            let s = unit@.skip(pos as int);
            let si = skip_seps(s, seps@);
            assert(si == i - pos);
            assert(s.skip(si) =~= unit@.skip(i as int));
            assert(next_sep(s.skip(si), seps@) == k - i);
            assert(s.subrange(si, si + (k - i)) =~= unit@.subrange(i as int, k as int));
            assert(s.skip(si + (k - i)) =~= unit@.skip(k as int));
            assert(pending == seq![unit@.subrange(i as int, k as int)] + split_tok_spec(
                unit@.skip(k as int),
                seps@,
                (max - count - 1) as nat,
            ));
            assert(field_views(out_old) + pending =~= field_views(out@) + split_tok_spec(
                unit@.skip(k as int),
                seps@,
                (max - count - 1) as nat,
            ));
        }
        pos = k;
        count = count + 1;
    }
    out
}

} // verus!
