//! Text operations on character sequences: pattern replacement and joining.
use vstd::prelude::*;

verus! {

/// `rep` before every character of `s` and once more at the end: what replacing the empty
/// pattern gives.
pub open spec fn spec_interleave(s: Seq<char>, rep: Seq<char>) -> Seq<char>
    decreases s.len(),
{
    if s.len() == 0 {
        rep
    } else {
        rep + seq![s[0]] + spec_interleave(s.skip(1), rep)
    }
}

/// `s` with every occurrence of `pat` replaced by `rep`, scanning left to right and never
/// letting two occurrences overlap. The empty pattern occurs before every character and at
/// the end.
pub open spec fn spec_replace(s: Seq<char>, pat: Seq<char>, rep: Seq<char>) -> Seq<char>
    decreases s.len(),
{
    if pat.len() == 0 {
        spec_interleave(s, rep)
    } else if s.len() < pat.len() {
        s
    } else if s.take(pat.len() as int) == pat {
        rep + spec_replace(s.skip(pat.len() as int), pat, rep)
    } else {
        seq![s[0]] + spec_replace(s.skip(1), pat, rep)
    }
}

/// The decimal digit `d` (below ten), as text.
pub open spec fn digit(d: nat) -> Seq<char> {
    "0123456789"@.subrange(d as int, d as int + 1)
}

/// `n` written in decimal, without leading zeros.
pub open spec fn spec_decimal_nat(n: nat) -> Seq<char>
    decreases n,
{
    if n < 10 {
        digit(n)
    } else {
        spec_decimal_nat(n / 10) + digit(n % 10)
    }
}

/// `x` written in decimal, with a leading `-` when it is negative.
pub open spec fn spec_decimal(x: int) -> Seq<char> {
    if x < 0 {
        "-"@ + spec_decimal_nat((-x) as nat)
    } else {
        spec_decimal_nat(x as nat)
    }
}

fn decimal_u64(n: u64) -> (r: String)
    ensures
        r@ == spec_decimal_nat(n as nat),
    decreases n,
{
    proof {
        reveal_strlit("0123456789");
    }
    if n < 10 {
        let d = n as usize;
        String::from_str("0123456789".substring_char(d, d + 1))
    } else {
        let mut s = decimal_u64(n / 10);
        let d = (n % 10) as usize;
        s.append("0123456789".substring_char(d, d + 1));
        s
    }
}

/// `x` in decimal.
pub fn decimal_i64(x: i64) -> (r: String)
    ensures
        r@ == spec_decimal(x as int),
{
    if x < 0 {
        let m: u64 = (0i128 - x as i128) as u64;
        let mut s = String::from_str("-");
        let digits = decimal_u64(m);
        s.append(digits.as_str());
        s
    } else {
        decimal_u64(x as u64)
    }
}

/// The views of a sequence of strings.
pub open spec fn string_views(v: Seq<String>) -> Seq<Seq<char>> {
    v.map_values(|s: String| s@)
}

/// The items of `list`, with `sep` between each two.
pub open spec fn spec_join(list: Seq<Seq<char>>, sep: Seq<char>) -> Seq<char>
    decreases list.len(),
{
    if list.len() == 0 {
        Seq::empty()
    } else if list.len() == 1 {
        list[0]
    } else {
        spec_join(list.drop_last(), sep) + sep + list.last()
    }
}

/// Where no occurrence of `pat` starts at the front of `s`, the first character is kept.
proof fn lemma_replace_keep_first(s: Seq<char>, pat: Seq<char>, rep: Seq<char>)
    requires
        pat.len() > 0,
        s.len() > 0,
        s.len() < pat.len() || s.take(pat.len() as int) != pat,
    ensures
        spec_replace(s, pat, rep) == seq![s[0]] + spec_replace(s.skip(1), pat, rep),
{
    if s.len() < pat.len() {
        assert(s =~= seq![s[0]] + s.skip(1));
    }
}

/// The characters of `s`.
pub fn chars_of(s: &str) -> (r: Vec<char>)
    ensures
        r@ == s@,
{
    let n = s.unicode_len();
    let mut r: Vec<char> = Vec::new();
    for i in 0..n
        invariant
            n == s@.len(),
            r@ == s@.take(i as int),
    {
        r.push(s.get_char(i));
        assert(r@ =~= s@.take(i + 1));
    }
    assert(r@ =~= s@);
    r
}

/// Whether `pat` occurs in `chars` at position `i`.
fn occurs_at(chars: &Vec<char>, pat: &Vec<char>, i: usize) -> (r: bool)
    requires
        i + pat@.len() <= chars@.len(),
    ensures
        r == (chars@.subrange(i as int, i + pat@.len()) == pat@),
{
    let m = pat.len();
    let len = chars.len();
    for j in 0..m
        invariant
            m == pat@.len(),
            len == chars@.len(),
            i + m <= len,
            forall|t: int| 0 <= t < j ==> chars@[i + t] == pat@[t],
    {
        if chars[i + j] != pat[j] {
            assert(chars@.subrange(i as int, i + m)[j as int] != pat@[j as int]);
            return false;
        }
    }
    assert(chars@.subrange(i as int, i + m) =~= pat@);
    true
}

/// `s` with every occurrence of `pat` replaced by `rep`.
pub fn replace_all(s: &str, pat: &str, rep: &str) -> (r: String)
    ensures
        r@ == spec_replace(s@, pat@, rep@),
{
    if pat.is_empty() {
        replace_empty(s, rep)
    } else {
        replace_nonempty(s, pat, rep)
    }
}

/// `rep` before every character of `s` and once more at the end.
fn replace_empty(s: &str, rep: &str) -> (r: String)
    ensures
        r@ == spec_interleave(s@, rep@),
{
    let n = s.unicode_len();
    let mut res = String::new();
    assert(s@.skip(0) =~= s@);
    for i in 0..n
        invariant
            n == s@.len(),
            spec_interleave(s@, rep@) == res@ + spec_interleave(s@.skip(i as int), rep@),
    {
        let ghost r0 = res@;
        res.append(rep);
        res.append(s.substring_char(i, i + 1));
        proof {
            let rest = s@.skip(i as int);
            assert(rest[0] == s@[i as int]);
            assert(rest.skip(1) =~= s@.skip(i + 1));
            assert(s@.subrange(i as int, i + 1) =~= seq![s@[i as int]]);
            assert(r0 + (rep@ + seq![rest[0]] + spec_interleave(rest.skip(1), rep@)) =~= res@
                + spec_interleave(s@.skip(i + 1), rep@));
        }
    }
    res.append(rep);
    proof {
        assert(s@.skip(n as int) =~= Seq::<char>::empty());
    }
    res
}

/// `s` with every occurrence of the non-empty `pat` replaced by `rep`.
fn replace_nonempty(s: &str, pat: &str, rep: &str) -> (r: String)
    requires
        pat@.len() > 0,
    ensures
        r@ == spec_replace(s@, pat@, rep@),
{
    let chars = chars_of(s);
    let pchars = chars_of(pat);
    let n = chars.len();
    let m = pchars.len();
    let mut res = String::new();
    let mut i: usize = 0;
    let mut seg: usize = 0;
    assert(s@.skip(0) =~= s@);
    while i < n
        invariant
            n == s@.len(),
            m == pat@.len(),
            m > 0,
            chars@ == s@,
            pchars@ == pat@,
            seg <= i <= n,
            spec_replace(s@, pat@, rep@) == res@ + s@.subrange(seg as int, i as int) + spec_replace(
                s@.skip(i as int),
                pat@,
                rep@,
            ),
        decreases n - i,
    {
        let ghost rest = s@.skip(i as int);
        if m <= n - i && occurs_at(&chars, &pchars, i) {
            assert(rest.take(m as int) =~= s@.subrange(i as int, i + m));
            assert(rest.skip(m as int) =~= s@.skip(i + m));
            let ghost r0 = res@;
            let ghost seg0 = seg;
            let ghost i0 = i;
            res.append(s.substring_char(seg, i));
            res.append(rep);
            i = i + m;
            seg = i;
            assert(res@ == r0 + s@.subrange(seg0 as int, i0 as int) + rep@);
            assert(s@.subrange(seg as int, i as int) =~= Seq::<char>::empty());
            assert(r0 + s@.subrange(seg0 as int, i0 as int) + (rep@ + spec_replace(
                s@.skip(i as int),
                pat@,
                rep@,
            )) =~= res@ + Seq::<char>::empty() + spec_replace(s@.skip(i as int), pat@, rep@));
        } else {
            proof {
                if m <= n - i {
                    assert(rest.take(m as int) =~= s@.subrange(i as int, i + m));
                }
                lemma_replace_keep_first(rest, pat@, rep@);
                assert(rest.skip(1) =~= s@.skip(i + 1));
                assert(s@.subrange(seg as int, i + 1) =~= s@.subrange(seg as int, i as int).push(
                    s@[i as int],
                ));
                assert(res@ + s@.subrange(seg as int, i as int) + (seq![rest[0]] + spec_replace(
                    s@.skip(i + 1),
                    pat@,
                    rep@,
                )) =~= res@ + s@.subrange(seg as int, i + 1) + spec_replace(
                    s@.skip(i + 1),
                    pat@,
                    rep@,
                ));
            }
            i = i + 1;
        }
    }
    assert(s@.skip(n as int) =~= Seq::<char>::empty());
    res.append(s.substring_char(seg, n));
    assert(res@ =~= res@ + Seq::<char>::empty());
    res
}

/// The items of `list`, with `sep` between each two.
pub fn join(list: &Vec<String>, sep: &str) -> (r: String)
    ensures
        r@ == spec_join(string_views(list@), sep@),
{
    let ghost views = string_views(list@);
    let mut res = String::new();
    let n = list.len();
    for i in 0..n
        invariant
            n == list@.len(),
            views == string_views(list@),
            res@ == spec_join(views.take(i as int), sep@),
    {
        if i != 0 {
            res.append(sep);
        }
        res.append(list[i].as_str());
        proof {
            assert(views.take(i + 1).drop_last() =~= views.take(i as int));
            if i == 0 {
                assert(spec_join(views.take(0), sep@) == Seq::<char>::empty());
                assert(res@ =~= views.take(1)[0]);
            }
        }
    }
    assert(views.take(n as int) =~= views);
    res
}

/// Text without any character `c`.
pub open spec fn lacks_char(s: Seq<char>, c: char) -> bool {
    forall|i: int| 0 <= i < s.len() ==> #[trigger] s[i] != c
}

/// Law: text in which the first character of the pattern never occurs is left as it is.
pub proof fn lemma_replace_untouched(s: Seq<char>, pat: Seq<char>, rep: Seq<char>)
    requires
        pat.len() > 0,
        lacks_char(s, pat[0]),
    ensures
        spec_replace(s, pat, rep) == s,
    decreases s.len(),
{
    if s.len() >= pat.len() {
        assert(s.take(pat.len() as int)[0] != pat[0]);
        lemma_replace_untouched(s.skip(1), pat, rep);
        assert(s =~= seq![s[0]] + s.skip(1));
    }
}

/// Law: a prefix in which the first character of the pattern never occurs is kept as it is,
/// and replacement goes on behind it.
pub proof fn lemma_replace_after_prefix(a: Seq<char>, b: Seq<char>, pat: Seq<char>, rep: Seq<char>)
    requires
        pat.len() > 0,
        lacks_char(a, pat[0]),
    ensures
        spec_replace(a + b, pat, rep) == a + spec_replace(b, pat, rep),
    decreases a.len(),
{
    if a.len() > 0 {
        let ab = a + b;
        if ab.len() < pat.len() {
            assert(b.len() < pat.len());
            assert(spec_replace(b, pat, rep) == b);
            assert(spec_replace(ab, pat, rep) == ab);
        } else {
            assert(ab.take(pat.len() as int)[0] == a[0]);
            assert(ab.take(pat.len() as int) != pat);
            lemma_replace_after_prefix(a.skip(1), b, pat, rep);
            assert(ab.skip(1) =~= a.skip(1) + b);
            assert(ab[0] == a[0]);
            assert(seq![a[0]] + (a.skip(1) + spec_replace(b, pat, rep)) =~= a + spec_replace(
                b,
                pat,
                rep,
            ));
        }
    } else {
        assert(a + b =~= b);
    }
}

/// Law: an occurrence of the pattern at the front is replaced, and replacement goes on
/// behind it; what replaces it is never looked at again.
pub proof fn lemma_replace_at_front(b: Seq<char>, pat: Seq<char>, rep: Seq<char>)
    requires
        pat.len() > 0,
    ensures
        spec_replace(pat + b, pat, rep) == rep + spec_replace(b, pat, rep),
{
    assert((pat + b).take(pat.len() as int) =~= pat);
    assert((pat + b).skip(pat.len() as int) =~= b);
}

/// Law: text in which the pattern occurs nowhere is left as it is.
pub proof fn lemma_replace_absent(s: Seq<char>, pat: Seq<char>, rep: Seq<char>)
    requires
        pat.len() > 0,
        forall|k: int|
            0 <= k && k + pat.len() <= s.len() ==> #[trigger] s.subrange(k, k + pat.len()) != pat,
    ensures
        spec_replace(s, pat, rep) == s,
    decreases s.len(),
{
    if s.len() >= pat.len() {
        assert(s.take(pat.len() as int) == s.subrange(0int, 0int + pat.len()));
        let t = s.skip(1);
        assert forall|k: int| 0 <= k && k + pat.len() <= t.len() implies #[trigger] t.subrange(
            k,
            k + pat.len(),
        ) != pat by {
            assert(t.subrange(k, k + pat.len()) =~= s.subrange(k + 1, k + 1 + pat.len()));
        }
        lemma_replace_absent(t, pat, rep);
        assert(s =~= seq![s[0]] + t);
    }
}

/// Law: two texts without the character `c` make, one after the other, a text without it.
pub proof fn lemma_concat_lacks(x: Seq<char>, y: Seq<char>, c: char)
    requires
        lacks_char(x, c),
        lacks_char(y, c),
    ensures
        lacks_char(x + y, c),
{
    assert forall|i: int| 0 <= i < (x + y).len() implies #[trigger] (x + y)[i] != c by {
        if i < x.len() {
            assert((x + y)[i] == x[i]);
        } else {
            assert((x + y)[i] == y[i - x.len()]);
        }
    }
}

/// Law: items and a separator without the character `c` join to a text without it.
pub proof fn lemma_join_lacks(list: Seq<Seq<char>>, sep: Seq<char>, c: char)
    requires
        forall|i: int| 0 <= i < list.len() ==> lacks_char(#[trigger] list[i], c),
        lacks_char(sep, c),
    ensures
        lacks_char(spec_join(list, sep), c),
    decreases list.len(),
{
    if list.len() > 1 {
        let d = list.drop_last();
        assert forall|i: int| 0 <= i < d.len() implies lacks_char(#[trigger] d[i], c) by {
            assert(d[i] == list[i]);
        }
        lemma_join_lacks(d, sep, c);
        assert(lacks_char(list.last(), c));
        lemma_concat_lacks(spec_join(d, sep), sep, c);
        lemma_concat_lacks(spec_join(d, sep) + sep, list.last(), c);
    } else if list.len() == 1 {
        assert(lacks_char(list[0], c));
    }
}

/// `needle` occurs in `hay`, somewhere.
pub open spec fn occurs_in(needle: Seq<char>, hay: Seq<char>) -> bool {
    exists|k: int|
        0 <= k && k + needle.len() <= hay.len() && #[trigger] hay.subrange(k, k + needle.len())
            == needle
}

/// Law: every item of a list occurs in the list joined; one item joins to itself, two items
/// join around the separator.
pub proof fn lemma_join_items(list: Seq<Seq<char>>, sep: Seq<char>)
    ensures
        list.len() == 0 ==> spec_join(list, sep) == Seq::<char>::empty(),
        list.len() == 1 ==> spec_join(list, sep) == list[0],
        list.len() == 2 ==> spec_join(list, sep) == list[0] + sep + list[1],
        forall|i: int| 0 <= i < list.len() ==> occurs_in(#[trigger] list[i], spec_join(list, sep)),
    decreases list.len(),
{
    if list.len() == 2 {
        assert(list.drop_last().len() == 1);
        assert(spec_join(list.drop_last(), sep) == list[0]);
    }
    if list.len() > 0 {
        let j = spec_join(list, sep);
        assert forall|i: int| 0 <= i < list.len() implies occurs_in(#[trigger] list[i], j) by {
            if list.len() == 1 {
                assert(i == 0);
                assert(j.subrange(0int, 0int + list[i].len()) =~= list[i]);
                assert(occurs_in(list[i], j));
            } else {
                let d = spec_join(list.drop_last(), sep);
                assert(j == d + sep + list.last());
                if i == list.len() - 1 {
                    let k = (d + sep).len() as int;
                    assert(j.subrange(k, k + list[i].len()) =~= list[i]);
                    assert(occurs_in(list[i], j));
                } else {
                    lemma_join_items(list.drop_last(), sep);
                    assert(list.drop_last()[i] == list[i]);
                    assert(occurs_in(list[i], d));
                    let k = choose|k: int|
                        0 <= k && k + list[i].len() <= d.len() && #[trigger] d.subrange(
                            k,
                            k + list[i].len(),
                        ) == list[i];
                    assert(j.subrange(k, k + list[i].len()) =~= d.subrange(k, k + list[i].len()));
                    assert(occurs_in(list[i], j));
                }
            }
        }
    }
}

} // verus!
