use crate::board::{BorderMode, CapMode};
use vstd::prelude::*;
use vstd::string::StrSliceExecFns;

verus! {

/// Unicode white space, as `char::is_whitespace` defines it (the White_Space
/// property).
pub open spec fn is_ws(c: char) -> bool {
    let v = c as u32;
    (0x9 <= v && v <= 0xD) || v == 0x20 || v == 0x85 || v == 0xA0 || v == 0x1680
        || (0x2000 <= v && v <= 0x200A) || v == 0x2028 || v == 0x2029 || v == 0x202F
        || v == 0x205F || v == 0x3000
}

/// Whether `c` is Unicode white space.
fn is_ws_exec(c: char) -> (r: bool)
    ensures
        r == is_ws(c),
{
    let v = c as u32;
    (0x9 <= v && v <= 0xD) || v == 0x20 || v == 0x85 || v == 0xA0 || v == 0x1680
        || (0x2000 <= v && v <= 0x200A) || v == 0x2028 || v == 0x2029 || v == 0x202F
        || v == 0x205F || v == 0x3000
}

/// Without leading white space.
pub open spec fn trim_start(s: Seq<char>) -> Seq<char>
    decreases s.len(),
{
    if s.len() > 0 && is_ws(s[0]) { trim_start(s.drop_first()) } else { s }
}

/// Without trailing white space.
pub open spec fn trim_end(s: Seq<char>) -> Seq<char>
    decreases s.len(),
{
    if s.len() > 0 && is_ws(s.last()) { trim_end(s.drop_last()) } else { s }
}

/// Without white space at either end.
pub open spec fn trim(s: Seq<char>) -> Seq<char> {
    trim_end(trim_start(s))
}

/// The pieces of `s` between commas, each trimmed, from the piece that starts at
/// `st`, scanning from `i`.
pub open spec fn pieces_from(s: Seq<char>, st: int, i: int) -> Seq<Seq<char>>
    decreases s.len() - i,
{
    if i >= s.len() {
        seq![trim(s.subrange(st, s.len() as int))]
    } else if s[i] == ',' {
        seq![trim(s.subrange(st, i))] + pieces_from(s, i + 1, i + 1)
    } else {
        pieces_from(s, st, i + 1)
    }
}

/// The pieces of `s` between commas, each trimmed (empty pieces included).
pub open spec fn comma_pieces(s: Seq<char>) -> Seq<Seq<char>> {
    pieces_from(s, 0, 0)
}

proof fn lemma_trim_start(s: Seq<char>, st: int, lo: int, i: int)
    requires
        0 <= st <= lo <= i <= s.len(),
        forall|k: int| st <= k < lo ==> is_ws(#[trigger] s[k]),
        lo == i || !is_ws(s[lo]),
    ensures
        trim_start(s.subrange(st, i)) == s.subrange(lo, i),
    decreases lo - st,
{
    if st < lo {
        assert(s.subrange(st, i).drop_first() =~= s.subrange(st + 1, i));
        lemma_trim_start(s, st + 1, lo, i);
    } else if lo < i {
        assert(s.subrange(st, i)[0] == s[lo]);
    }
}

proof fn lemma_trim_end(s: Seq<char>, lo: int, hi: int, i: int)
    requires
        0 <= lo <= hi <= i <= s.len(),
        forall|k: int| hi <= k < i ==> is_ws(#[trigger] s[k]),
        hi == lo || !is_ws(s[hi - 1]),
    ensures
        trim_end(s.subrange(lo, i)) == s.subrange(lo, hi),
    decreases i - hi,
{
    if hi < i {
        assert(s.subrange(lo, i).drop_last() =~= s.subrange(lo, i - 1));
        assert(s.subrange(lo, i).last() == s[i - 1]);
        lemma_trim_end(s, lo, hi, i - 1);
    } else if lo < hi {
        assert(s.subrange(lo, i).last() == s[hi - 1]);
    }
}

/// The bounds of `s[st..i]` without white space at either end.
fn trim_bounds(s: &str, st: usize, i: usize) -> (r: (usize, usize))
    requires
        st <= i <= s@.len(),
    ensures
        st <= r.0 <= r.1 <= i,
        s@.subrange(r.0 as int, r.1 as int) == trim(s@.subrange(st as int, i as int)),
{
    let mut lo = st;
    while lo < i && is_ws_exec(s.get_char(lo))
        invariant
            st <= lo <= i <= s@.len(),
            forall|k: int| st <= k < lo ==> is_ws(#[trigger] s@[k]),
        decreases i - lo,
    {
        lo += 1;
    }
    let mut hi = i;
    while hi > lo && is_ws_exec(s.get_char(hi - 1))
        invariant
            st <= lo <= hi <= i <= s@.len(),
            forall|k: int| hi <= k < i ==> is_ws(#[trigger] s@[k]),
        decreases hi - lo,
    {
        hi -= 1;
    }
    proof {
        lemma_trim_start(s@, st as int, lo as int, i as int);
        lemma_trim_end(s@, lo as int, hi as int, i as int);
    }
    (lo, hi)
}

/// The bounds of the trimmed pieces of `s` between commas.
fn piece_bounds(s: &str) -> (r: Vec<(usize, usize)>)
    ensures
        forall|k: int| 0 <= k < r@.len() ==> (#[trigger] r@[k]).0 <= r@[k].1 <= s@.len(),
        r@.map_values(|p: (usize, usize)| s@.subrange(p.0 as int, p.1 as int)) == comma_pieces(s@),
{
    let n = s.unicode_len();
    let mut r: Vec<(usize, usize)> = Vec::new();
    let mut st: usize = 0;
    let mut i: usize = 0;
    while i < n
        invariant
            n == s@.len(),
            0 <= st <= i <= n,
            forall|k: int| 0 <= k < r@.len() ==> (#[trigger] r@[k]).0 <= r@[k].1 <= s@.len(),
            r@.map_values(|p: (usize, usize)| s@.subrange(p.0 as int, p.1 as int)) + pieces_from(s@, st as int, i as int)
                == comma_pieces(s@),
        decreases n - i,
    {
        let ghost before = r@.map_values(|p: (usize, usize)| s@.subrange(p.0 as int, p.1 as int));
        if s.get_char(i) == ',' {
            let b = trim_bounds(s, st, i);
            r.push(b);
            proof {
                let after = r@.map_values(|p: (usize, usize)| s@.subrange(p.0 as int, p.1 as int));
                assert(after =~= before.push(trim(s@.subrange(st as int, i as int))));
                assert(pieces_from(s@, st as int, i as int)
                    == seq![trim(s@.subrange(st as int, i as int))] + pieces_from(s@, i + 1, i + 1));
                assert(after + pieces_from(s@, i + 1, i + 1) =~= before + pieces_from(s@, st as int, i as int));
            }
            st = i + 1;
        }
        i += 1;
    }
    let b = trim_bounds(s, st, n);
    let ghost before = r@.map_values(|p: (usize, usize)| s@.subrange(p.0 as int, p.1 as int));
    r.push(b);
    proof {
        let after = r@.map_values(|p: (usize, usize)| s@.subrange(p.0 as int, p.1 as int));
        assert(after =~= before.push(trim(s@.subrange(st as int, n as int))));
        assert(pieces_from(s@, st as int, n as int) == seq![trim(s@.subrange(st as int, n as int))]);
        assert(after =~= before + pieces_from(s@, st as int, n as int));
    }
    r
}

/// The non-empty pieces, in order.
pub open spec fn keep_nonempty(ps: Seq<Seq<char>>) -> Seq<Seq<char>>
    decreases ps.len(),
{
    if ps.len() == 0 {
        Seq::<Seq<char>>::empty()
    } else {
        let r = keep_nonempty(ps.drop_last());
        if ps.last().len() > 0 { r.push(ps.last()) } else { r }
    }
}

/// Whether `s[lo..hi]` spells `w`.
fn piece_eq(s: &str, lo: usize, hi: usize, w: &Vec<char>) -> (r: bool)
    requires
        lo <= hi <= s@.len(),
    ensures
        r == (s@.subrange(lo as int, hi as int) == w@),
{
    if hi - lo != w.len() {
        return false;
    }
    let mut k: usize = 0;
    while k < w.len()
        invariant
            lo <= hi <= s@.len(),
            hi - lo == w@.len(),
            0 <= k <= w@.len(),
            forall|t: int| 0 <= t < k ==> s@[lo + t] == w@[t],
        decreases w@.len() - k,
    {
        if s.get_char(lo + k) != w[k] {
            assert(s@.subrange(lo as int, hi as int)[k as int] != w@[k as int]);
            return false;
        }
        k += 1;
    }
    assert(s@.subrange(lo as int, hi as int) =~= w@);
    true
}

/// The names in a comma-separated list: each piece trimmed, empty pieces dropped.
pub fn parse_algs(s: &str) -> (r: Vec<String>)
    ensures
        r@.map_values(|x: String| x@) == keep_nonempty(comma_pieces(s@)),
{
    let bounds = piece_bounds(s);
    let ghost ps = comma_pieces(s@);
    let ghost f = |p: (usize, usize)| s@.subrange(p.0 as int, p.1 as int);
    assert(bounds@.map_values(f) == ps);
    let mut r: Vec<String> = Vec::new();
    let mut k: usize = 0;
    while k < bounds.len()
        invariant
            forall|t: int| 0 <= t < bounds@.len() ==> (#[trigger] bounds@[t]).0 <= bounds@[t].1 <= s@.len(),
            bounds@.map_values(f) == ps,
            f == (|p: (usize, usize)| s@.subrange(p.0 as int, p.1 as int)),
            0 <= k <= bounds@.len(),
            r@.map_values(|x: String| x@) == keep_nonempty(ps.take(k as int)),
        decreases bounds@.len() - k,
    {
        let (lo, hi) = bounds[k];
        assert(bounds@[k as int].0 <= bounds@[k as int].1);
        let ghost before = r@.map_values(|x: String| x@);
        assert(ps[k as int] == s@.subrange(lo as int, hi as int));
        assert(ps.take(k + 1).drop_last() =~= ps.take(k as int));
        assert(ps.take(k + 1).last() == ps[k as int]);
        if lo < hi {
            let piece = s.substring_char(lo, hi).to_owned();
            r.push(piece);
            assert(r@.map_values(|x: String| x@) =~= before.push(ps[k as int]));
        }
        k += 1;
    }
    assert(ps.take(bounds@.len() as int) =~= ps);
    r
}

/// The cap mode a list entry names: `3`, `4`, `5` or `random`.
pub open spec fn cap_named(p: Seq<char>) -> Option<CapMode> {
    if p == seq!['3'] {
        Some(CapMode::Cap3)
    } else if p == seq!['4'] {
        Some(CapMode::Cap4)
    } else if p == seq!['5'] {
        Some(CapMode::Cap5)
    } else if p == seq!['r', 'a', 'n', 'd', 'o', 'm'] {
        Some(CapMode::Random)
    } else {
        None
    }
}

/// The border mode a list entry names: `default`, `wrap`, `bounce` or `degrade`.
pub open spec fn border_named(p: Seq<char>) -> Option<BorderMode> {
    if p == seq!['d', 'e', 'f', 'a', 'u', 'l', 't'] {
        Some(BorderMode::Default)
    } else if p == seq!['w', 'r', 'a', 'p'] {
        Some(BorderMode::Wrap)
    } else if p == seq!['b', 'o', 'u', 'n', 'c', 'e'] {
        Some(BorderMode::Bounce)
    } else if p == seq!['d', 'e', 'g', 'r', 'a', 'd', 'e'] {
        Some(BorderMode::Degrade)
    } else {
        None
    }
}

/// The cap modes named in the pieces, unknown names skipped.
pub open spec fn caps_named(ps: Seq<Seq<char>>) -> Seq<CapMode>
    decreases ps.len(),
{
    if ps.len() == 0 {
        Seq::<CapMode>::empty()
    } else {
        let r = caps_named(ps.drop_last());
        match cap_named(ps.last()) {
            Some(c) => r.push(c),
            None => r,
        }
    }
}

/// The border modes named in the pieces, unknown names skipped.
pub open spec fn borders_named(ps: Seq<Seq<char>>) -> Seq<BorderMode>
    decreases ps.len(),
{
    if ps.len() == 0 {
        Seq::<BorderMode>::empty()
    } else {
        let r = borders_named(ps.drop_last());
        match border_named(ps.last()) {
            Some(c) => r.push(c),
            None => r,
        }
    }
}

/// The cap modes of a comma-separated list (`3`, `4`, `5`, `random`); other entries
/// are skipped.
pub fn parse_caps(s: &str) -> (r: Vec<CapMode>)
    ensures
        r@ == caps_named(comma_pieces(s@)),
{
    let bounds = piece_bounds(s);
    let ghost ps = comma_pieces(s@);
    let ghost f = |p: (usize, usize)| s@.subrange(p.0 as int, p.1 as int);
    assert(bounds@.map_values(f) == ps);
    let w3 = vec!['3'];
    let w4 = vec!['4'];
    let w5 = vec!['5'];
    let wr = vec!['r', 'a', 'n', 'd', 'o', 'm'];
    assert(w3@ == seq!['3'] && w4@ == seq!['4'] && w5@ == seq!['5']);
    assert(wr@ == seq!['r', 'a', 'n', 'd', 'o', 'm']);
    let mut r: Vec<CapMode> = Vec::new();
    let mut k: usize = 0;
    while k < bounds.len()
        invariant
            forall|t: int| 0 <= t < bounds@.len() ==> (#[trigger] bounds@[t]).0 <= bounds@[t].1 <= s@.len(),
            bounds@.map_values(f) == ps,
            f == (|p: (usize, usize)| s@.subrange(p.0 as int, p.1 as int)),
            w3@ == seq!['3'],
            w4@ == seq!['4'],
            w5@ == seq!['5'],
            wr@ == seq!['r', 'a', 'n', 'd', 'o', 'm'],
            0 <= k <= bounds@.len(),
            r@ == caps_named(ps.take(k as int)),
        decreases bounds@.len() - k,
    {
        let (lo, hi) = bounds[k];
        assert(bounds@[k as int].0 <= bounds@[k as int].1);
        assert(ps[k as int] == s@.subrange(lo as int, hi as int));
        assert(ps.take(k + 1).drop_last() =~= ps.take(k as int));
        assert(ps.take(k + 1).last() == ps[k as int]);
        if piece_eq(s, lo, hi, &w3) {
            r.push(CapMode::Cap3);
        } else if piece_eq(s, lo, hi, &w4) {
            r.push(CapMode::Cap4);
        } else if piece_eq(s, lo, hi, &w5) {
            r.push(CapMode::Cap5);
        } else if piece_eq(s, lo, hi, &wr) {
            r.push(CapMode::Random);
        }
        k += 1;
    }
    assert(ps.take(bounds@.len() as int) =~= ps);
    r
}

/// The border modes of a comma-separated list (`default`, `wrap`, `bounce`,
/// `degrade`); other entries are skipped.
pub fn parse_borders(s: &str) -> (r: Vec<BorderMode>)
    ensures
        r@ == borders_named(comma_pieces(s@)),
{
    let bounds = piece_bounds(s);
    let ghost ps = comma_pieces(s@);
    let ghost f = |p: (usize, usize)| s@.subrange(p.0 as int, p.1 as int);
    assert(bounds@.map_values(f) == ps);
    let wd = vec!['d', 'e', 'f', 'a', 'u', 'l', 't'];
    let ww = vec!['w', 'r', 'a', 'p'];
    let wb = vec!['b', 'o', 'u', 'n', 'c', 'e'];
    let wg = vec!['d', 'e', 'g', 'r', 'a', 'd', 'e'];
    let mut r: Vec<BorderMode> = Vec::new();
    let mut k: usize = 0;
    while k < bounds.len()
        invariant
            forall|t: int| 0 <= t < bounds@.len() ==> (#[trigger] bounds@[t]).0 <= bounds@[t].1 <= s@.len(),
            bounds@.map_values(f) == ps,
            f == (|p: (usize, usize)| s@.subrange(p.0 as int, p.1 as int)),
            wd@ == seq!['d', 'e', 'f', 'a', 'u', 'l', 't'],
            ww@ == seq!['w', 'r', 'a', 'p'],
            wb@ == seq!['b', 'o', 'u', 'n', 'c', 'e'],
            wg@ == seq!['d', 'e', 'g', 'r', 'a', 'd', 'e'],
            0 <= k <= bounds@.len(),
            r@ == borders_named(ps.take(k as int)),
        decreases bounds@.len() - k,
    {
        let (lo, hi) = bounds[k];
        assert(bounds@[k as int].0 <= bounds@[k as int].1);
        assert(ps[k as int] == s@.subrange(lo as int, hi as int));
        assert(ps.take(k + 1).drop_last() =~= ps.take(k as int));
        assert(ps.take(k + 1).last() == ps[k as int]);
        if piece_eq(s, lo, hi, &wd) {
            r.push(BorderMode::Default);
        } else if piece_eq(s, lo, hi, &ww) {
            r.push(BorderMode::Wrap);
        } else if piece_eq(s, lo, hi, &wb) {
            r.push(BorderMode::Bounce);
        } else if piece_eq(s, lo, hi, &wg) {
            r.push(BorderMode::Degrade);
        }
        k += 1;
    }
    assert(ps.take(bounds@.len() as int) =~= ps);
    r
}

/// The names joined into one list, a comma between each two.
pub open spec fn join_commas(ps: Seq<Seq<char>>) -> Seq<char>
    decreases ps.len(),
{
    if ps.len() <= 1 {
        if ps.len() == 0 { Seq::<char>::empty() } else { ps[0] }
    } else {
        ps[0] + seq![','] + join_commas(ps.drop_first())
    }
}

/// A name a list can carry: not empty, no comma in it, no white space at its ends.
pub open spec fn list_name(w: Seq<char>) -> bool {
    &&& w.len() > 0
    &&& !w.contains(',')
    &&& !is_ws(w[0])
    &&& !is_ws(w.last())
}

proof fn lemma_pieces_to_comma(s: Seq<char>, st: int, i: int, j: int)
    requires
        0 <= st <= i <= j <= s.len(),
        forall|k: int| i <= k < j ==> s[k] != ',',
        j == s.len() || s[j] == ',',
    ensures
        pieces_from(s, st, i) == if j == s.len() {
            seq![trim(s.subrange(st, s.len() as int))]
        } else {
            seq![trim(s.subrange(st, j))] + pieces_from(s, j + 1, j + 1)
        },
    decreases j - i,
{
    if i < j {
        lemma_pieces_to_comma(s, st, i + 1, j);
    }
}

proof fn lemma_pieces_shift(pre: Seq<char>, b: Seq<char>, st: int, i: int)
    requires
        0 <= st <= i <= b.len(),
    ensures
        pieces_from(pre + b, pre.len() + st, pre.len() + i) == pieces_from(b, st, i),
    decreases b.len() - i,
{
    let s = pre + b;
    if i >= b.len() {
        assert(s.subrange(pre.len() + st, s.len() as int) =~= b.subrange(st, b.len() as int));
    } else {
        assert(s[pre.len() + i] == b[i]);
        if b[i] == ',' {
            assert(s.subrange(pre.len() + st, pre.len() + i) =~= b.subrange(st, i));
            lemma_pieces_shift(pre, b, i + 1, i + 1);
        } else {
            lemma_pieces_shift(pre, b, st, i + 1);
        }
    }
}

proof fn lemma_trim_name(w: Seq<char>)
    requires
        list_name(w),
    ensures
        trim(w) == w,
{
}

proof fn lemma_keep_all(ps: Seq<Seq<char>>)
    requires
        forall|k: int| 0 <= k < ps.len() ==> (#[trigger] ps[k]).len() > 0,
    ensures
        keep_nonempty(ps) == ps,
    decreases ps.len(),
{
    if ps.len() > 0 {
        let t = ps.drop_last();
        assert forall|k: int| 0 <= k < t.len() implies (#[trigger] t[k]).len() > 0 by {
            assert(t[k] == ps[k]);
        }
        lemma_keep_all(t);
        assert(ps[ps.len() - 1].len() > 0);
        assert(t.push(ps.last()) =~= ps);
    }
}

proof fn lemma_split_join(ps: Seq<Seq<char>>)
    requires
        ps.len() > 0,
        forall|k: int| 0 <= k < ps.len() ==> list_name(#[trigger] ps[k]),
    ensures
        comma_pieces(join_commas(ps)) == ps,
    decreases ps.len(),
{
    let w = ps[0];
    assert(list_name(ps[0]));
    lemma_trim_name(w);
    if ps.len() == 1 {
        let s = join_commas(ps);
        assert(s == w);
        assert forall|k: int| 0 <= k < s.len() implies s[k] != ',' by {
            if s[k] == ',' {
                assert(w.contains(','));
            }
        }
        lemma_pieces_to_comma(s, 0, 0, s.len() as int);
        assert(s.subrange(0, s.len() as int) =~= w);
        assert(comma_pieces(s) =~= ps);
    } else {
        let rest = ps.drop_first();
        assert forall|k: int| 0 <= k < rest.len() implies list_name(#[trigger] rest[k]) by {
            assert(rest[k] == ps[k + 1]);
        }
        lemma_split_join(rest);
        let pre = w + seq![','];
        let s = join_commas(ps);
        assert(s == pre + join_commas(rest));
        assert forall|k: int| 0 <= k < w.len() implies s[k] != ',' by {
            assert(s[k] == w[k]);
            if w[k] == ',' {
                assert(w.contains(','));
            }
        }
        assert(s[w.len() as int] == ',');
        lemma_pieces_to_comma(s, 0, 0, w.len() as int);
        assert(s.subrange(0, w.len() as int) =~= w);
        lemma_pieces_shift(pre, join_commas(rest), 0, 0);
        assert(pre.len() == w.len() + 1);
        assert(comma_pieces(s) == seq![w] + comma_pieces(join_commas(rest)));
        assert(seq![w] + rest =~= ps);
    }
}

/// Splitting a list of names joined with commas gives back the names: for names
/// that are not empty, hold no comma and have no white space at their ends, the
/// pieces of the joined list are the names, and none of them is dropped.
pub proof fn lemma_list_round_trip(ps: Seq<Seq<char>>)
    requires
        forall|k: int| 0 <= k < ps.len() ==> list_name(#[trigger] ps[k]),
    ensures
        ps.len() > 0 ==> comma_pieces(join_commas(ps)) == ps,
        ps.len() > 0 ==> keep_nonempty(comma_pieces(join_commas(ps))) == ps,
{
    if ps.len() > 0 {
        lemma_split_join(ps);
        assert forall|k: int| 0 <= k < ps.len() implies (#[trigger] ps[k]).len() > 0 by {
            assert(list_name(ps[k]));
        }
        lemma_keep_all(ps);
    }
}

} // verus!
