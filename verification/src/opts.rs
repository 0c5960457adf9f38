//! The options of the strength test, read from its command-line arguments.
use crate::board::{BorderMode, CapMode};
use crate::text::{borders_named, caps_named, comma_pieces, keep_nonempty, parse_algs, parse_borders, parse_caps};
use vstd::prelude::*;

verus! {

/// Whether `c` is an ASCII digit.
pub open spec fn is_digit(c: char) -> bool {
    '0' <= c <= '9'
}

/// The value of a string of decimal digits.
pub open spec fn digits_value(s: Seq<char>) -> int
    decreases s.len(),
{
    if s.len() == 0 {
        0
    } else {
        digits_value(s.drop_last()) * 10 + (s.last() as int - '0' as int)
    }
}

/// Whether every character of `d` is a digit.
pub open spec fn all_digits(d: Seq<char>) -> bool {
    forall|k: int| 0 <= k < d.len() ==> is_digit(#[trigger] d[k])
}

/// `s` without a leading `+`.
pub open spec fn unsigned_part(s: Seq<char>) -> Seq<char> {
    if s.len() > 0 && s[0] == '+' { s.drop_first() } else { s }
}

/// The unsigned number a string spells as Rust reads one: an optional `+`, then one
/// or more decimal digits and nothing else.
pub open spec fn dec_value(s: Seq<char>) -> Option<int> {
    let d = unsigned_part(s);
    if d.len() > 0 && all_digits(d) { Some(digits_value(d)) } else { None }
}

/// The number `s` spells when it is at most `max`, `dflt` otherwise.
pub open spec fn num_or(s: Seq<char>, max: int, dflt: int) -> int {
    match dec_value(s) {
        Some(v) => if v <= max { v } else { dflt },
        None => dflt,
    }
}

proof fn lemma_digits_value_nonneg(s: Seq<char>)
    requires
        forall|k: int| 0 <= k < s.len() ==> is_digit(#[trigger] s[k]),
    ensures
        digits_value(s) >= 0,
    decreases s.len(),
{
    if s.len() > 0 {
        lemma_digits_value_nonneg(s.drop_last());
    }
}

/// The number `s` spells, when it spells one of at most `max`.
fn parse_num(s: &str, max: u64) -> (r: Option<u64>)
    requires
        max >= 9,
    ensures
        r matches Some(v) ==> dec_value(s@) == Some(v as int) && v <= max,
        r is None ==> !(dec_value(s@) matches Some(v) && v <= max),
{
    let n = s.unicode_len();
    let mut i: usize = 0;
    if n > 0 && s.get_char(0) == '+' {
        i = 1;
    }
    let ghost d = unsigned_part(s@);
    if i >= n {
        return None;
    }
    let ghost st = i as int;
    assert(d =~= s@.subrange(st, n as int));
    let mut v: u64 = 0;
    while i < n
        invariant
            n == s@.len(),
            0 <= st <= i <= n,
            st < n,
            max >= 9,
            d == s@.subrange(st, n as int),
            d == unsigned_part(s@),
            forall|k: int| st <= k < i ==> is_digit(#[trigger] s@[k]),
            v == digits_value(s@.subrange(st, i as int)),
            v <= max,
        decreases n - i,
    {
        let c = s.get_char(i);
        if !('0' <= c && c <= '9') {
            assert(d[i - st] == s@[i as int]);
            assert(!is_digit(d[i - st]));
            assert(!all_digits(d));
            return None;
        }
        let digit: u64 = (c as u32 - '0' as u32) as u64;
        assert(s@.subrange(st, i + 1).drop_last() =~= s@.subrange(st, i as int));
        assert(digits_value(s@.subrange(st, i + 1)) == v * 10 + digit);
        if v > (max - digit) / 10 {
            proof {
                assert(v * 10 + digit > max) by (nonlinear_arith)
                    requires
                        v > (max - digit) / 10,
                        digit <= max,
                ;
                if all_digits(d) {
                    assert(d.subrange(0, i + 1 - st) =~= s@.subrange(st, i + 1));
                    lemma_prefix_value_le(d, i + 1 - st);
                }
            }
            return None;
        }
        assert(v * 10 + digit <= max) by (nonlinear_arith)
            requires
                v <= (max - digit) / 10,
                digit <= max,
        ;
        v = v * 10 + digit;
        proof {
            assert forall|k: int| st <= k < i + 1 implies is_digit(#[trigger] s@[k]) by {
                if k == i {
                    assert(s@[k] == c);
                }
            }
        }
        i += 1;
    }
    proof {
        assert(s@.subrange(st, n as int) =~= d);
        assert forall|k: int| 0 <= k < d.len() implies is_digit(#[trigger] d[k]) by {
            assert(d[k] == s@[st + k]);
        }
    }
    Some(v)
}

/// A prefix of a string of digits has a value no larger than the whole.
proof fn lemma_prefix_value_le(t: Seq<char>, m: int)
    requires
        0 <= m <= t.len(),
        forall|k: int| 0 <= k < t.len() ==> is_digit(#[trigger] t[k]),
    ensures
        digits_value(t.subrange(0, m)) <= digits_value(t),
    decreases t.len(),
{
    if m < t.len() {
        let u = t.drop_last();
        assert forall|k: int| 0 <= k < u.len() implies is_digit(#[trigger] u[k]) by {
            assert(u[k] == t[k]);
        }
        assert(u.subrange(0, m) =~= t.subrange(0, m));
        lemma_prefix_value_le(u, m);
        lemma_digits_value_nonneg(u);
    } else {
        assert(t.subrange(0, m) =~= t);
    }
}

/// Whether two strings are equal.
fn str_eq(a: &str, b: &str) -> (r: bool)
    ensures
        r == (a@ == b@),
{
    let n = a.unicode_len();
    if n != b.unicode_len() {
        return false;
    }
    let mut k: usize = 0;
    while k < n
        invariant
            n == a@.len(),
            n == b@.len(),
            0 <= k <= n,
            forall|t: int| 0 <= t < k ==> a@[t] == b@[t],
        decreases n - k,
    {
        if a.get_char(k) != b.get_char(k) {
            return false;
        }
        k += 1;
    }
    assert(a@ =~= b@);
    true
}

/// The options of the strength test.
pub struct Opts {
    pub games: u32,
    pub size: usize,
    pub depth: usize,
    pub mcts_depth: usize,
    pub caps: Vec<CapMode>,
    pub borders: Vec<BorderMode>,
    pub algs: Vec<String>,
    pub use_ml: bool,
    pub seed: u64,
}

/// The options with their lists as sequences.
pub struct OptsView {
    pub games: u32,
    pub size: usize,
    pub depth: usize,
    pub mcts_depth: usize,
    pub caps: Seq<CapMode>,
    pub borders: Seq<BorderMode>,
    pub algs: Seq<Seq<char>>,
    pub use_ml: bool,
    pub seed: u64,
}

/// The text of each string.
pub open spec fn texts(v: Seq<String>) -> Seq<Seq<char>> {
    v.map_values(|x: String| x@)
}

impl View for Opts {
    type V = OptsView;

    open spec fn view(&self) -> OptsView {
        OptsView {
            games: self.games,
            size: self.size,
            depth: self.depth,
            mcts_depth: self.mcts_depth,
            caps: self.caps@,
            borders: self.borders@,
            algs: texts(self.algs@),
            use_ml: self.use_ml,
            seed: self.seed,
        }
    }
}

/// The options without arguments: six games a pairing on a board of 7, depth 2
/// (1 for the Monte Carlo search), caps 3, 4 and 5, the four fixed borders, the four
/// programs, the learned evaluation on, seed 42.
pub open spec fn default_opts() -> OptsView {
    OptsView {
        games: 6,
        size: 7,
        depth: 2,
        mcts_depth: 1,
        caps: caps_named(comma_pieces("3,4,5"@)),
        borders: borders_named(comma_pieces("default,wrap,bounce,degrade"@)),
        algs: keep_nonempty(comma_pieces("strategy,alphabeta,pvs,mcts"@)),
        use_ml: true,
        seed: 42,
    }
}

/// The argument after position `i`, empty when there is none.
pub open spec fn value_after(args: Seq<Seq<char>>, i: int) -> Seq<char> {
    if i + 1 < args.len() { args[i + 1] } else { Seq::<char>::empty() }
}

/// The options that the arguments from `i` on make of `o`, with the arguments that
/// name no option, in order. A flag that takes a value takes the next argument (empty
/// at the end); a number that does not read falls back to the option's default.
pub open spec fn opts_after(args: Seq<Seq<char>>, i: int, o: OptsView) -> (OptsView, Seq<Seq<char>>)
    decreases args.len() + 1 - i,
{
    if i < 0 || i >= args.len() {
        (o, Seq::<Seq<char>>::empty())
    } else {
        let a = args[i];
        let v = value_after(args, i);
        if a == "--games"@ {
            opts_after(args, i + 2, OptsView { games: num_or(v, u32::MAX as int, 6) as u32, ..o })
        } else if a == "--size"@ {
            opts_after(args, i + 2, OptsView { size: num_or(v, usize::MAX as int, 7) as usize, ..o })
        } else if a == "--depth"@ {
            opts_after(args, i + 2, OptsView { depth: num_or(v, usize::MAX as int, 2) as usize, ..o })
        } else if a == "--mcts-depth"@ {
            opts_after(args, i + 2, OptsView { mcts_depth: num_or(v, usize::MAX as int, 1) as usize, ..o })
        } else if a == "--caps"@ {
            opts_after(args, i + 2, OptsView { caps: caps_named(comma_pieces(v)), ..o })
        } else if a == "--borders"@ {
            opts_after(args, i + 2, OptsView { borders: borders_named(comma_pieces(v)), ..o })
        } else if a == "--algs"@ {
            opts_after(args, i + 2, OptsView { algs: keep_nonempty(comma_pieces(v)), ..o })
        } else if a == "--ml"@ {
            opts_after(args, i + 1, OptsView { use_ml: true, ..o })
        } else if a == "--no-ml"@ {
            opts_after(args, i + 1, OptsView { use_ml: false, ..o })
        } else if a == "--seed"@ {
            opts_after(args, i + 2, OptsView { seed: num_or(v, u64::MAX as int, 42) as u64, ..o })
        } else {
            let r = opts_after(args, i + 1, o);
            (r.0, seq![a] + r.1)
        }
    }
}

/// The number `s` spells when it is at most `max`, `dflt` otherwise.
fn num_or_exec(s: &str, max: u64, dflt: u64) -> (r: u64)
    requires
        max >= 9,
        dflt <= max,
    ensures
        r == num_or(s@, max as int, dflt as int),
        r <= max,
{
    match parse_num(s, max) {
        Some(v) => v,
        None => dflt,
    }
}

/// Reads the options of the strength test from its arguments (without the program
/// name); also returns the arguments that name no option.
pub fn parse_opts(args: &Vec<String>) -> (r: (Opts, Vec<String>))
    ensures
        r.0@ == opts_after(texts(args@), 0, default_opts()).0,
        texts(r.1@) == opts_after(texts(args@), 0, default_opts()).1,
{
    let ghost a = texts(args@);
    let mut o = Opts {
        games: 6,
        size: 7,
        depth: 2,
        mcts_depth: 1,
        caps: parse_caps("3,4,5"),
        borders: parse_borders("default,wrap,bounce,degrade"),
        algs: parse_algs("strategy,alphabeta,pvs,mcts"),
        use_ml: true,
        seed: 42,
    };
    let mut unknown: Vec<String> = Vec::new();
    let mut i: usize = 0;
    while i < args.len()
        invariant
            a == texts(args@),
            0 <= i <= args@.len(),
            opts_after(a, 0, default_opts()) == (opts_after(a, i as int, o@).0, texts(unknown@) + opts_after(a, i as int, o@).1),
        decreases args@.len() - i,
    {
        proof {
            reveal_strlit("");
        }
        let ghost ub = texts(unknown@);
        let ghost i0 = i as int;
        let arg = args[i].as_str();
        let v: &str = if i + 1 < args.len() { args[i + 1].as_str() } else { "" };
        let next2: usize = if i + 1 < args.len() { i + 2 } else { args.len() };
        assert(v@ == value_after(a, i as int));
        assert(arg@ == a[i as int]);
        if str_eq(arg, "--games") {
            o.games = num_or_exec(v, 4294967295, 6) as u32;
            assert(opts_after(a, next2 as int, o@) == opts_after(a, i0 + 2, o@));
            i = next2;
        } else if str_eq(arg, "--size") {
            o.size = num_or_exec(v, usize::MAX as u64, 7) as usize;
            assert(opts_after(a, next2 as int, o@) == opts_after(a, i0 + 2, o@));
            i = next2;
        } else if str_eq(arg, "--depth") {
            o.depth = num_or_exec(v, usize::MAX as u64, 2) as usize;
            assert(opts_after(a, next2 as int, o@) == opts_after(a, i0 + 2, o@));
            i = next2;
        } else if str_eq(arg, "--mcts-depth") {
            o.mcts_depth = num_or_exec(v, usize::MAX as u64, 1) as usize;
            assert(opts_after(a, next2 as int, o@) == opts_after(a, i0 + 2, o@));
            i = next2;
        } else if str_eq(arg, "--caps") {
            o.caps = parse_caps(v);
            assert(opts_after(a, next2 as int, o@) == opts_after(a, i0 + 2, o@));
            i = next2;
        } else if str_eq(arg, "--borders") {
            o.borders = parse_borders(v);
            assert(opts_after(a, next2 as int, o@) == opts_after(a, i0 + 2, o@));
            i = next2;
        } else if str_eq(arg, "--algs") {
            o.algs = parse_algs(v);
            assert(opts_after(a, next2 as int, o@) == opts_after(a, i0 + 2, o@));
            i = next2;
        } else if str_eq(arg, "--ml") {
            o.use_ml = true;
            i += 1;
        } else if str_eq(arg, "--no-ml") {
            o.use_ml = false;
            i += 1;
        } else if str_eq(arg, "--seed") {
            o.seed = num_or_exec(v, u64::MAX, 42);
            assert(opts_after(a, next2 as int, o@) == opts_after(a, i0 + 2, o@));
            i = next2;
        } else {
            unknown.push(arg.to_owned());
            proof {
                assert(texts(unknown@) =~= ub.push(a[i as int]));
                let r = opts_after(a, i + 1, o@);
                assert(ub + (seq![a[i as int]] + r.1) =~= texts(unknown@) + r.1);
            }
            i += 1;
        }
    }
    (o, unknown)
}

} // verus!
