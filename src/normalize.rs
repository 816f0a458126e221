use vstd::prelude::*;

use crate::text::{
    chars_of, collapse_pairs, joined, lemma_trim_ends, lines, pieces, string_of, trim, trim_bounds,
};

verus! {

/// The footer noise of the statute text: the gazette's running title, or a divider of
/// five or more underscores.
pub const FOOTER_PATTERN: &'static str = r"(?m).*GAZETTE OF INDIA EXTRAORDINARY$|(?m)^.*_{5,}\s*$";

/// Whether `regex::Regex::new` accepts `pattern`.
pub uninterp spec fn regex_accepts(pattern: Seq<char>) -> bool;

/// What `regex::Regex::replace_all` leaves of `text` when every match of `pattern` is
/// replaced by the empty string.
pub uninterp spec fn regex_erased(pattern: Seq<char>, text: Seq<char>) -> Seq<char>;

/// Relies on `regex::Regex::new` (whether the pattern compiles) and
/// `regex::Regex::replace_all` with an empty replacement.
#[verifier::external_body]
fn erase_matches(pattern: &str, text: &str) -> (r: Option<String>)
    ensures
        r is Some <==> regex_accepts(pattern@),
        r matches Some(s) ==> s@ == regex_erased(pattern@, text@),
{
    match regex::Regex::new(pattern) {
        Ok(re) => Some(re.replace_all(text, "").into_owned()),
        Err(_) => None,
    }
}

/// The lines of `s`, each trimmed, joined by single newlines.
pub open spec fn trimmed_lines(s: Seq<char>) -> Seq<char> {
    joined(lines(s).map_values(|l: Seq<char>| trim(l)))
}

/// The normalised form of footer-free text: every line trimmed, lines joined by single
/// newlines, then one left-to-right pass that makes each pair of newlines one. Runs of
/// three or more newlines are therefore shortened, not always to one.
pub open spec fn tidy(s: Seq<char>) -> Seq<char> {
    collapse_pairs(trimmed_lines(s))
}

/// `n` newlines.
pub open spec fn newlines(n: nat) -> Seq<char> {
    Seq::new(n, |i: int| '\n')
}

/// The pass works on what follows a character other than a newline on its own.
proof fn lemma_collapse_after(x: Seq<char>, z: Seq<char>)
    requires
        x.len() > 0,
        x.last() != '\n',
    ensures
        collapse_pairs(x + z) == collapse_pairs(x) + collapse_pairs(z),
    decreases x.len(),
{
    let s = x + z;
    if x.len() == 1 {
        if z.len() == 0 {
            assert(s =~= x);
        } else {
            assert(s.drop_first() =~= z);
            assert(collapse_pairs(x) == x);
            assert(seq![s[0]] =~= x);
        }
    } else if x[0] == '\n' && x[1] == '\n' {
        let x2 = x.subrange(2, x.len() as int);
        assert(x2.len() > 0);
        assert(x2.last() == x.last());
        lemma_collapse_after(x2, z);
        assert(s.subrange(2, s.len() as int) =~= x2 + z);
        assert(seq!['\n'] + (collapse_pairs(x2) + collapse_pairs(z)) =~= (seq!['\n'] + collapse_pairs(x2))
            + collapse_pairs(z));
    } else {
        let x1 = x.drop_first();
        assert(x1.last() == x.last());
        lemma_collapse_after(x1, z);
        assert(s.drop_first() =~= x1 + z);
        assert(seq![x[0]] + (collapse_pairs(x1) + collapse_pairs(z)) =~= (seq![x[0]] + collapse_pairs(x1))
            + collapse_pairs(z));
    }
}

/// `n` newlines before a character other than a newline leave the pass as `(n + 1) / 2`.
proof fn lemma_collapse_run_before(n: nat, y: Seq<char>)
    requires
        y.len() > 0,
        y[0] != '\n',
    ensures
        collapse_pairs(newlines(n) + y) == newlines((n + 1) / 2) + collapse_pairs(y),
    decreases n,
{
    let s = newlines(n) + y;
    if n >= 2 {
        lemma_collapse_run_before((n - 2) as nat, y);
        assert(s.subrange(2, s.len() as int) =~= newlines((n - 2) as nat) + y);
        assert(seq!['\n'] + (newlines(((n - 2) as nat + 1) / 2) + collapse_pairs(y)) =~= newlines(
            (n + 1) / 2,
        ) + collapse_pairs(y));
    } else if n == 1 {
        assert(s[0] == '\n' && s[1] == y[0]);
        assert(s.drop_first() =~= y);
        assert(seq![s[0]] =~= newlines(1));
    } else {
        assert(s =~= y);
        assert(newlines(0) + collapse_pairs(y) =~= collapse_pairs(y));
    }
}

/// Between two text lines, `b` blank lines (`b + 1` newlines in a row) leave the
/// newline-pair pass as `b / 2` blank lines: fewer than `b` whenever `b >= 1`, so three
/// blank lines become one. The text on either side is processed on its own.
pub proof fn lemma_blank_run_shortened(x: Seq<char>, b: nat, y: Seq<char>)
    requires
        x.len() > 0,
        x.last() != '\n',
        y.len() > 0,
        y[0] != '\n',
    ensures
        collapse_pairs(x + newlines(b + 1) + y) == collapse_pairs(x) + newlines(b / 2 + 1)
            + collapse_pairs(y),
{
    lemma_collapse_after(x, newlines(b + 1) + y);
    lemma_collapse_run_before(b + 1, y);
    assert((b + 2) / 2 == b / 2 + 1) by (nonlinear_arith);
    assert(x + newlines(b + 1) + y =~= x + (newlines(b + 1) + y));
    assert(collapse_pairs(x) + (newlines(b / 2 + 1) + collapse_pairs(y)) =~= collapse_pairs(x)
        + newlines(b / 2 + 1) + collapse_pairs(y));
}

proof fn lemma_joined_concat(x: Seq<Seq<char>>, y: Seq<Seq<char>>)
    requires
        x.len() > 0,
        y.len() > 0,
    ensures
        joined(x + y) == joined(x) + seq!['\n'] + joined(y),
    decreases y.len(),
{
    if y.len() == 1 {
        assert((x + y).drop_last() =~= x);
        assert((x + y).last() == y[0]);
    } else {
        lemma_joined_concat(x, y.drop_last());
        assert((x + y).drop_last() =~= x + y.drop_last());
        assert((x + y).last() == y.last());
        assert(joined(x) + seq!['\n'] + joined(y.drop_last()) + seq!['\n'] + y.last() =~= joined(x)
            + seq!['\n'] + (joined(y.drop_last()) + seq!['\n'] + y.last()));
    }
}

proof fn lemma_joined_empties(b: nat)
    requires
        b >= 1,
    ensures
        joined(Seq::new(b, |i: int| Seq::<char>::empty())) == newlines((b - 1) as nat),
    decreases b,
{
    let e = Seq::new(b, |i: int| Seq::<char>::empty());
    if b == 1 {
        assert(joined(e) == e[0]);
        assert(newlines(0) =~= Seq::<char>::empty());
    } else {
        lemma_joined_empties((b - 1) as nat);
        assert(e.drop_last() =~= Seq::new((b - 1) as nat, |i: int| Seq::<char>::empty()));
        assert(newlines((b - 2) as nat) + seq!['\n'] + e.last() =~= newlines((b - 1) as nat));
    }
}

proof fn lemma_joined_ends(x: Seq<Seq<char>>)
    requires
        x.len() > 0,
    ensures
        x[0].len() > 0 ==> joined(x).len() > 0 && joined(x)[0] == x[0][0],
        x.last().len() > 0 ==> joined(x).len() > 0 && joined(x).last() == x.last().last(),
    decreases x.len(),
{
    if x.len() > 1 {
        lemma_joined_ends(x.drop_last());
        assert(x.drop_last()[0] == x[0]);
    }
}

/// A run of blank lines between two text lines, in footer-free text, comes out of
/// normalisation shortened: `b` lines that are empty once trimmed become `b / 2` empty
/// lines (so three become one), and the text on either side is normalised on its own.
pub proof fn lemma_blank_lines_shortened(
    s: Seq<char>,
    a: Seq<Seq<char>>,
    blank: Seq<Seq<char>>,
    c: Seq<Seq<char>>,
)
    requires
        lines(s) == a + blank + c,
        a.len() > 0,
        c.len() > 0,
        trim(a.last()).len() > 0,
        trim(c[0]).len() > 0,
        forall|i: int| 0 <= i < blank.len() ==> trim(#[trigger] blank[i]).len() == 0,
    ensures
        tidy(s) == collapse_pairs(joined(a.map_values(|l: Seq<char>| trim(l)))) + newlines(
            blank.len() / 2 + 1,
        ) + collapse_pairs(joined(c.map_values(|l: Seq<char>| trim(l)))),
{
    let ta = a.map_values(|l: Seq<char>| trim(l));
    let tb = blank.map_values(|l: Seq<char>| trim(l));
    let tc = c.map_values(|l: Seq<char>| trim(l));
    let b = blank.len();
    assert(lines(s).map_values(|l: Seq<char>| trim(l)) =~= ta + tb + tc);
    assert(ta + tb + tc =~= ta + (tb + tc));
    if b == 0 {
        assert(tb + tc =~= tc);
        lemma_joined_concat(ta, tc);
        assert(seq!['\n'] =~= newlines(1));
    } else {
        assert forall|i: int| 0 <= i < b implies tb[i] == Seq::<char>::empty() by {
            assert(tb[i] == trim(blank[i]));
            assert(trim(blank[i]) =~= Seq::<char>::empty());
        }
        assert(tb =~= Seq::new(b, |i: int| Seq::<char>::empty()));
        lemma_joined_empties(b);
        lemma_joined_concat(tb, tc);
        lemma_joined_concat(ta, tb + tc);
        assert(joined(ta) + seq!['\n'] + (newlines((b - 1) as nat) + seq!['\n'] + joined(tc)) =~= joined(
            ta,
        ) + newlines(b + 1) + joined(tc));
    }
    assert(ta.last() == trim(a.last()));
    assert(tc[0] == trim(c[0]));
    lemma_trim_ends(a.last());
    lemma_trim_ends(c[0]);
    lemma_joined_ends(ta);
    lemma_joined_ends(tc);
    lemma_blank_run_shortened(joined(ta), b, joined(tc));
}

proof fn lemma_joined_push(ls: Seq<Seq<char>>, x: Seq<char>)
    ensures
        joined(ls.push(x)) == if ls.len() == 0 {
            x
        } else {
            joined(ls) + seq!['\n'] + x
        },
{
    assert(ls.push(x).drop_last() =~= ls);
    if ls.len() == 0 {
        assert(ls.push(x) =~= seq![x]);
    }
}

proof fn lemma_map_push(ls: Seq<Seq<char>>, x: Seq<char>)
    ensures
        ls.push(x).map_values(|l: Seq<char>| trim(l)) == ls.map_values(|l: Seq<char>| trim(l)).push(
            trim(x),
        ),
{
    assert(ls.push(x).map_values(|l: Seq<char>| trim(l)) =~= ls.map_values(
        |l: Seq<char>| trim(l),
    ).push(trim(x)));
}

/// Appends `v[from..to]` to `out`.
fn push_range(out: &mut Vec<char>, v: &Vec<char>, from: usize, to: usize)
    requires
        from <= to <= v@.len(),
    ensures
        final(out)@ == old(out)@ + v@.subrange(from as int, to as int),
{
    let mut k: usize = from;
    while k < to
        invariant
            from <= k <= to <= v@.len(),
            out@ == old(out)@ + v@.subrange(from as int, k as int),
        decreases to - k,
    {
        out.push(v[k]);
        assert(v@.subrange(from as int, k + 1) =~= v@.subrange(from as int, k as int).push(v@[k as int]));
        k = k + 1;
    }
}

/// The lines of `v`, each trimmed, joined by single newlines.
fn join_trimmed_lines(v: &Vec<char>) -> (r: Vec<char>)
    ensures
        r@ == trimmed_lines(v@),
{
    let mut out: Vec<char> = Vec::new();
    let ghost mut done: Seq<Seq<char>> = Seq::empty();
    let mut start: usize = 0;
    let mut k: usize = 0;
    let mut any_line = false;
    assert(v@.subrange(0, 0) =~= Seq::<char>::empty());
    assert(pieces(Seq::<char>::empty()) =~= done.push(v@.subrange(0, 0)));
    while k < v.len()
        invariant
            start <= k <= v@.len(),
            any_line == (done.len() > 0),
            pieces(v@.subrange(0, k as int)) == done.push(v@.subrange(start as int, k as int)),
            out@ == joined(done.map_values(|l: Seq<char>| trim(l))),
        decreases v@.len() - k,
    {
        let ghost prefix = v@.subrange(0, k + 1);
        assert(prefix.drop_last() =~= v@.subrange(0, k as int));
        assert(prefix.last() == v@[k as int]);
        if v[k] == '\n' {
            let (a, b) = trim_bounds(v, start, k);
            proof {
                lemma_map_push(done, v@.subrange(start as int, k as int));
                lemma_joined_push(
                    done.map_values(|l: Seq<char>| trim(l)),
                    trim(v@.subrange(start as int, k as int)),
                );
            }
            if any_line {
                out.push('\n');
            }
            push_range(&mut out, v, a, b);
            proof {
                done = done.push(v@.subrange(start as int, k as int));
                assert(v@.subrange(k + 1, k + 1) =~= Seq::<char>::empty());
            }
            start = k + 1;
            any_line = true;
        } else {
            proof {
                let p = done.push(v@.subrange(start as int, k as int));
                assert(v@.subrange(start as int, k + 1) =~= v@.subrange(start as int, k as int).push(
                    v@[k as int],
                ));
                assert(p.update(p.len() - 1, p.last().push(v@[k as int])) =~= done.push(
                    v@.subrange(start as int, k + 1),
                ));
            }
        }
        k = k + 1;
    }
    assert(v@.subrange(0, v@.len() as int) =~= v@);
    if start < k {
        let (a, b) = trim_bounds(v, start, k);
        proof {
            lemma_map_push(done, v@.subrange(start as int, k as int));
            lemma_joined_push(
                done.map_values(|l: Seq<char>| trim(l)),
                trim(v@.subrange(start as int, k as int)),
            );
        }
        if any_line {
            out.push('\n');
        }
        push_range(&mut out, v, a, b);
        proof {
            assert(lines(v@) == done.push(v@.subrange(start as int, k as int)));
        }
    } else {
        proof {
            assert(done.push(v@.subrange(start as int, k as int)).drop_last() =~= done);
            assert(lines(v@) == done);
        }
    }
    out
}

/// `v` with each pair of newlines, read left to right without overlap, made one newline.
fn collapse_newline_pairs(v: &Vec<char>) -> (r: Vec<char>)
    ensures
        r@ == collapse_pairs(v@),
{
    let mut out: Vec<char> = Vec::new();
    let mut i: usize = 0;
    let n = v.len();
    assert(v@.subrange(0, n as int) =~= v@);
    while i < n
        invariant
            n == v@.len(),
            i <= n,
            out@ + collapse_pairs(v@.subrange(i as int, n as int)) == collapse_pairs(v@),
        decreases n - i,
    {
        let ghost rest = v@.subrange(i as int, n as int);
        if i + 1 < n && v[i] == '\n' && v[i + 1] == '\n' {
            proof {
                assert(rest.subrange(2, rest.len() as int) =~= v@.subrange(i + 2, n as int));
                assert(out@.push('\n') + collapse_pairs(v@.subrange(i + 2, n as int)) =~= out@
                    + collapse_pairs(rest));
            }
            out.push('\n');
            i = i + 2;
        } else {
            proof {
                assert(rest.drop_first() =~= v@.subrange(i + 1, n as int));
                if rest.len() < 2 {
                    assert(v@.subrange(i + 1, n as int) =~= Seq::<char>::empty());
                    assert(rest =~= seq![v@[i as int]]);
                }
                assert(out@.push(v@[i as int]) + collapse_pairs(v@.subrange(i + 1, n as int))
                    =~= out@ + collapse_pairs(rest));
            }
            out.push(v[i]);
            i = i + 1;
        }
    }
    assert(v@.subrange(n as int, n as int) =~= Seq::<char>::empty());
    assert(out@ + Seq::<char>::empty() =~= out@);
    out
}

/// Normalises text whose footer lines were already erased: see `tidy`.
pub fn tidy_text(text: &str) -> (r: String)
    ensures
        r@ == tidy(text@),
{
    let v = chars_of(text);
    let joined_lines = join_trimmed_lines(&v);
    let collapsed = collapse_newline_pairs(&joined_lines);
    string_of(&collapsed, 0, collapsed.len())
}

/// Erases the footer noise of `text`, then normalises what is left. `None` only where the
/// footer pattern does not compile.
pub fn cleanup_chapter(text: &str) -> (r: Option<String>)
    ensures
        r is Some <==> regex_accepts(FOOTER_PATTERN@),
        r matches Some(s) ==> s@ == tidy(regex_erased(FOOTER_PATTERN@, text@)),
{
    match erase_matches(FOOTER_PATTERN, text) {
        Some(stripped) => Some(tidy_text(stripped.as_str())),
        None => None,
    }
}

} // verus!
