//! Dotted paths such as `"phones.1"`: splitting them into segments, and
//! deciding whether a segment addresses an array element.

use vstd::prelude::*;

verus! {

/// The segments of `s` read so far (those already closed by a `'.'`) and
/// the segment still being read, after reading `s` from left to right.
pub open spec fn split_acc(s: Seq<char>) -> (Seq<Seq<char>>, Seq<char>)
    decreases s.len(),
{
    if s.len() == 0 {
        (Seq::empty(), Seq::empty())
    } else {
        let (done, cur) = split_acc(s.drop_last());
        if s.last() == '.' {
            (done.push(cur), Seq::empty())
        } else {
            (done, cur.push(s.last()))
        }
    }
}

/// The pieces of `s` between its `'.'` characters, empty pieces included:
/// `"a..b"` gives `["a", "", "b"]` and `""` gives `[""]`.
pub open spec fn split_path(s: Seq<char>) -> Seq<Seq<char>> {
    let (done, cur) = split_acc(s);
    done.push(cur)
}

/// The views of a vector of strings.
pub open spec fn strings_view(v: Seq<String>) -> Seq<Seq<char>> {
    v.map_values(|x: String| x@)
}

/// Appends `c` to `s` (`String::push`).
#[verifier::external_body]
fn push_char(s: &mut String, c: char)
    ensures
        final(s)@ == old(s)@.push(c),
{
    s.push(c);
}

/// Splits a dotted index into its segments, as `str::split(".")` does.
pub fn split_index(index: &str) -> (r: Vec<String>)
    ensures
        strings_view(r@) == split_path(index@),
{
    let mut done: Vec<String> = Vec::new();
    let mut cur: String = String::new();
    let ghost s = index@;
    for c in it: index.chars()
        invariant
            it.seq() == s,
            s == index@,
            (strings_view(done@), cur@) == split_acc(s.take(it.index() as int)),
    {
        let ghost i = it.index() as int;
        assert(s.take(i + 1).drop_last() =~= s.take(i));
        let ghost old_done = strings_view(done@);
        let ghost old_cur = cur@;
        if c == '.' {
            done.push(cur);
            cur = String::new();
            assert(strings_view(done@) =~= old_done.push(old_cur));
        } else {
            push_char(&mut cur, c);
        }
    }
    assert(s.take(s.len() as int) =~= s);
    let ghost before = strings_view(done@);
    done.push(cur);
    assert(strings_view(done@) =~= before.push(cur@));
    done
}

/// Whether `c` is one of the ASCII digits `0` to `9`.
pub open spec fn is_ascii_digit(c: char) -> bool {
    '0' <= c && c <= '9'
}

/// Whether `s` is made of ASCII digits only (the empty sequence is).
pub open spec fn all_ascii_digits(s: Seq<char>) -> bool {
    forall|i: int| 0 <= i < s.len() ==> is_ascii_digit(#[trigger] s[i])
}

/// The number that the ASCII digits `s` write in base ten.
pub open spec fn digits_value(s: Seq<char>) -> nat
    decreases s.len(),
{
    if s.len() == 0 {
        0
    } else {
        digits_value(s.drop_last()) * 10 + ((s.last() as u32) - ('0' as u32)) as nat
    }
}

/// What `str::parse::<usize>` gives: an optional `+` followed by at least one
/// ASCII digit, whose value fits in a `usize`.
pub open spec fn parse_usize(s: Seq<char>) -> Option<usize> {
    let d = if s.len() > 0 && s[0] == '+' {
        s.drop_first()
    } else {
        s
    };
    if d.len() > 0 && all_ascii_digits(d) && digits_value(d) <= usize::MAX {
        Some(digits_value(d) as usize)
    } else {
        None
    }
}

/// Adding a digit never makes the value smaller.
proof fn lemma_digits_value_grows(s: Seq<char>, c: char)
    requires
        is_ascii_digit(c),
    ensures
        digits_value(s.push(c)) >= digits_value(s),
        digits_value(s.push(c)) == digits_value(s) * 10 + ((c as u32) - ('0' as u32)),
{
    assert(s.push(c).drop_last() =~= s);
}

/// A prefix of digits has a value no larger than the whole.
proof fn lemma_digits_value_prefix(s: Seq<char>, i: int)
    requires
        0 <= i <= s.len(),
        all_ascii_digits(s),
    ensures
        digits_value(s.take(i)) <= digits_value(s),
    decreases s.len() - i,
{
    if i < s.len() {
        lemma_digits_value_prefix(s, i + 1);
        assert(s.take(i + 1) =~= s.take(i).push(s[i]));
        lemma_digits_value_grows(s.take(i), s[i]);
    } else {
        assert(s.take(i) =~= s);
    }
}

/// Parses an array index the way `str::parse::<usize>` does.
pub fn parse_index(seg: &str) -> (r: Option<usize>)
    ensures
        r == parse_usize(seg@),
{
    let ghost s = seg@;
    let ghost d = if s.len() > 0 && s[0] == '+' { s.drop_first() } else { s };
    let mut value: usize = 0;
    let ghost mut n_digits: int = 0;
    let mut seen_digit = false;
    let mut ok = true;
    let mut skipped_plus = false;
    let mut first = true;
    for c in it: seg.chars()
        invariant
            it.seq() == s,
            s == seg@,
            d == if s.len() > 0 && s[0] == '+' { s.drop_first() } else { s },
            first <==> it.index() == 0,
            skipped_plus ==> s.len() > 0 && s[0] == '+',
            it.index() > 0 && s[0] == '+' ==> skipped_plus,
            seen_digit <==> n_digits > 0,
            n_digits == it.index() - (if skipped_plus { 1int } else { 0int }),
            0 <= n_digits <= d.len(),
            ok ==> all_ascii_digits(d.take(n_digits)),
            ok ==> value as nat == digits_value(d.take(n_digits)),
            !ok ==> !(all_ascii_digits(d) && digits_value(d) <= usize::MAX),
    {
        if first && c == '+' {
            skipped_plus = true;
        } else {
            let ghost k = n_digits;
            assert(d[k] == c) by {
                if s.len() > 0 && s[0] == '+' {
                    assert(d[k] == s[k + 1]);
                }
            }
            assert(d.take(k + 1) =~= d.take(k).push(c));
            if ok {
                if '0' <= c && c <= '9' {
                    let digit = (c as u32 - '0' as u32) as usize;
                    proof {
                        lemma_digits_value_grows(d.take(k), c);
                    }
                    if value <= (usize::MAX - digit) / 10 {
                        value = value * 10 + digit;
                    } else {
                        ok = false;
                        proof {
                            assert(value * 10 + digit > usize::MAX) by (nonlinear_arith)
                                requires
                                    value > (usize::MAX - digit) / 10,
                                    digit <= 9,
                            ;
                            if all_ascii_digits(d) {
                                lemma_digits_value_prefix(d, k + 1);
                            }
                        }
                    }
                } else {
                    ok = false;
                }
            }
            proof {
                n_digits = n_digits + 1;
            }
            seen_digit = true;
        }
        first = false;
    }
    assert(d.take(d.len() as int) =~= d);
    if ok && seen_digit {
        Some(value)
    } else {
        None
    }
}

/// The pattern that a segment matches when it names an array position:
/// `^\d+$`, one or more decimal digits and nothing else.
pub open spec fn num_pattern() -> Seq<char> {
    seq!['^', '\\', 'd', '+', '$']
}

/// Whether the `regex` crate's pattern `pattern` matches `s`.
pub uninterp spec fn regex_match(pattern: Seq<char>, s: Seq<char>) -> bool;

/// Whether `s` matches [`num_pattern`]: whether it is one or more
/// characters of the Unicode class of decimal digits.
pub open spec fn num_regex_match(s: Seq<char>) -> bool {
    regex_match(num_pattern(), s)
}

/// Tests `s` against `pattern` (`regex::Regex::new` and
/// `regex::Regex::is_match`); only the digit pattern is admitted, which is
/// valid. The contract names the result. Beside the name it states three
/// facts from the crate's documentation for that pattern: a match is not
/// empty; among ASCII characters `\d` is exactly `0` to `9`; so every
/// non-empty run of ASCII digits matches. Which other Unicode digits match is
/// left unsaid.
#[verifier::external_body]
fn regex_is_match(pattern: &str, s: &str) -> (r: bool)
    requires
        pattern@ == num_pattern(),
    ensures
        r == regex_match(pattern@, s@),
        r ==> s@.len() > 0,
        r ==> forall|i: int|
            0 <= i < s@.len() && (s@[i] as u32) < 128 ==> is_ascii_digit(#[trigger] s@[i]),
        s@.len() > 0 && all_ascii_digits(s@) ==> r,
{
    regex::Regex::new(pattern).unwrap().is_match(s)
}

/// Whether a segment names an array position: whether it matches
/// [`num_pattern`].
pub fn is_num(seg: &str) -> (r: bool)
    ensures
        r == num_regex_match(seg@),
        r ==> seg@.len() > 0,
        r ==> forall|i: int|
            0 <= i < seg@.len() && (seg@[i] as u32) < 128 ==> is_ascii_digit(#[trigger] seg@[i]),
        seg@.len() > 0 && all_ascii_digits(seg@) ==> r,
{
    let pattern = r"^\d+$";
    proof {
        reveal_strlit(r"^\d+$");
        assert(pattern@ =~= num_pattern());
    }
    regex_is_match(pattern, seg)
}


/// The segments `segs` joined with `'.'` between them.
pub open spec fn join_dots(segs: Seq<Seq<char>>) -> Seq<char>
    decreases segs.len(),
{
    if segs.len() == 0 {
        Seq::empty()
    } else if segs.len() == 1 {
        segs[0]
    } else {
        join_dots(segs.drop_last()) + seq!['.'] + segs.last()
    }
}

proof fn lemma_join_dots_extend(d: Seq<Seq<char>>, x: Seq<char>, c: char)
    ensures
        join_dots(d.push(x.push(c))) == join_dots(d.push(x)).push(c),
{
    assert(d.push(x.push(c)).drop_last() =~= d);
    assert(d.push(x).drop_last() =~= d);
    if d.len() > 0 {
        assert(join_dots(d.push(x.push(c))) =~= join_dots(d) + seq!['.'] + x.push(c));
        assert(join_dots(d.push(x)) =~= join_dots(d) + seq!['.'] + x);
        assert(join_dots(d) + seq!['.'] + x.push(c) =~= (join_dots(d) + seq!['.'] + x).push(c));
    }
}

proof fn lemma_split_acc_joins(s: Seq<char>)
    ensures
        join_dots(split_acc(s).0.push(split_acc(s).1)) == s,
        forall|i: int, j: int|
            0 <= i < split_acc(s).0.len() && 0 <= j < split_acc(s).0[i].len() ==> #[trigger] split_acc(s).0[i][j] != '.',
        forall|j: int| 0 <= j < split_acc(s).1.len() ==> #[trigger] split_acc(s).1[j] != '.',
    decreases s.len(),
{
    if s.len() == 0 {
        assert(Seq::<Seq<char>>::empty().push(Seq::<char>::empty()).len() == 1);
    } else {
        let t = s.drop_last();
        let c = s.last();
        lemma_split_acc_joins(t);
        let (d, cur) = split_acc(t);
        assert(s =~= t.push(c));
        if c == '.' {
            let d1 = d.push(cur);
            let e = Seq::<char>::empty();
            assert(d1.push(e).drop_last() =~= d1);
            assert(join_dots(d1.push(e)) =~= join_dots(d1) + seq!['.'] + e);
            assert(join_dots(d1) + seq!['.'] + e =~= t.push('.'));
            assert forall|i: int, j: int| 0 <= i < d1.len() && 0 <= j < d1[i].len() implies #[trigger] d1[i][j] != '.' by {
                if i < d.len() {
                    assert(d1[i] == d[i]);
                }
            }
        } else {
            lemma_join_dots_extend(d, cur, c);
            let cur1 = cur.push(c);
            assert forall|j: int| 0 <= j < cur1.len() implies #[trigger] cur1[j] != '.' by {
                if j < cur.len() {
                    assert(cur1[j] == cur[j]);
                }
            }
        }
    }
}

/// Law: the segments of a path are exactly its pieces between `'.'`
/// characters: none holds a `'.'`, and joining them with `'.'` gives the path
/// back. So a path without `'.'` is the one segment it is.
pub proof fn law_split_path_pieces(s: Seq<char>)
    ensures
        join_dots(split_path(s)) == s,
        forall|i: int, j: int|
            0 <= i < split_path(s).len() && 0 <= j < split_path(s)[i].len() ==> #[trigger] split_path(s)[i][j] != '.',
        (forall|j: int| 0 <= j < s.len() ==> s[j] != '.') ==> split_path(s) == seq![s],
{
    lemma_split_acc_joins(s);
    let (d, cur) = split_acc(s);
    let r = split_path(s);
    assert forall|i: int, j: int| 0 <= i < r.len() && 0 <= j < r[i].len() implies #[trigger] r[i][j] != '.' by {
        if i < d.len() {
            assert(r[i] == d[i]);
        } else {
            assert(r[i] == cur);
        }
    }
    if forall|j: int| 0 <= j < s.len() ==> s[j] != '.' {
        lemma_split_acc_no_dot(s);
        assert(r =~= seq![s]);
    }
}

proof fn lemma_split_acc_no_dot(s: Seq<char>)
    requires
        forall|j: int| 0 <= j < s.len() ==> s[j] != '.',
    ensures
        split_acc(s).0.len() == 0,
        split_acc(s).1 == s,
    decreases s.len(),
{
    if s.len() > 0 {
        let t = s.drop_last();
        assert forall|j: int| 0 <= j < t.len() implies t[j] != '.' by {
            assert(t[j] == s[j]);
        }
        lemma_split_acc_no_dot(t);
        assert(s.last() == s[s.len() - 1]);
        assert(t.push(s.last()) =~= s);
    }
}

} // verus!
