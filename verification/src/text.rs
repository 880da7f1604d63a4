//! Text helpers shared by every module: characters of a string, trimming, splitting,
//! joining, decimal numbers and prefix tests, each with its meaning stated over `Seq<char>`.
use vstd::prelude::*;

verus! {

broadcast use vstd::string::group_string_axioms;

/// The characters of `s`, in order.
pub fn chars_of(s: &str) -> (v: Vec<char>)
    ensures
        v@ == s@,
{
    let mut v: Vec<char> = Vec::new();
    for c in it: s.chars()
        invariant
            v@ == it.seq().take(it.index() as int),
            it.seq() == s@,
    {
        v.push(c);
        assert(v@ =~= it.seq().take(it.index() + 1));
    }
    v
}

/// `String::push`: appends one character.
#[verifier::external_body]
pub(crate) fn push_char(s: &mut String, c: char)
    ensures
        final(s)@ == old(s)@.push(c),
{
    s.push(c);
}

/// A string holding the characters `v[lo..hi]`.
pub fn string_of_range(v: &Vec<char>, lo: usize, hi: usize) -> (r: String)
    requires
        lo <= hi <= v.len(),
    ensures
        r@ == v@.subrange(lo as int, hi as int),
{
    let mut r = String::new();
    let mut i = lo;
    while i < hi
        invariant
            lo <= i <= hi <= v.len(),
            r@ == v@.subrange(lo as int, i as int),
        decreases hi - i,
    {
        push_char(&mut r, v[i]);
        assert(r@ =~= v@.subrange(lo as int, i + 1));
        i += 1;
    }
    r
}

/// A string holding the characters of `v`.
pub fn string_of(v: &Vec<char>) -> (r: String)
    ensures
        r@ == v@,
{
    let r = string_of_range(v, 0, v.len());
    assert(v@.subrange(0, v@.len() as int) =~= v@);
    r
}

/// Appends `t` to `s`.
pub fn push_str(s: &mut String, t: &str)
    ensures
        final(s)@ == old(s)@ + t@,
{
    let tv = chars_of(t);
    let ghost start = s@;
    let mut i: usize = 0;
    while i < tv.len()
        invariant
            0 <= i <= tv.len(),
            tv@ == t@,
            s@ == start + tv@.subrange(0, i as int),
        decreases tv.len() - i,
    {
        push_char(s, tv[i]);
        assert(s@ =~= start + tv@.subrange(0, i + 1));
        i += 1;
    }
    assert(tv@.subrange(0, tv@.len() as int) =~= tv@);
}

/// A fresh string with the characters of `s`.
pub fn owned(s: &str) -> (r: String)
    ensures
        r@ == s@,
{
    let mut r = String::new();
    push_str(&mut r, s);
    assert(r@ =~= s@);
    r
}

/// `a` followed by `b`.
pub fn concat(a: &str, b: &str) -> (r: String)
    ensures
        r@ == a@ + b@,
{
    let mut r = owned(a);
    push_str(&mut r, b);
    r
}

/// Whether two strings hold the same characters.
pub fn str_eq(a: &str, b: &str) -> (r: bool)
    ensures
        r == (a@ == b@),
{
    let av = chars_of(a);
    let bv = chars_of(b);
    if av.len() != bv.len() {
        return false;
    }
    let mut i: usize = 0;
    while i < av.len()
        invariant
            av@ == a@,
            bv@ == b@,
            av.len() == bv.len(),
            0 <= i <= av.len(),
            forall|k: int| 0 <= k < i ==> av@[k] == bv@[k],
        decreases av.len() - i,
    {
        if av[i] != bv[i] {
            return false;
        }
        i += 1;
    }
    assert(av@ =~= bv@);
    true
}

// ---------------------------------------------------------------------------------------------
// Whitespace and trimming
// ---------------------------------------------------------------------------------------------

/// `char::is_whitespace`: the Unicode `White_Space` property.
pub open spec fn is_space(c: char) -> bool {
    let u = c as u32;
    ||| 0x9 <= u <= 0xd
    ||| u == 0x20
    ||| u == 0x85
    ||| u == 0xa0
    ||| u == 0x1680
    ||| 0x2000 <= u <= 0x200a
    ||| u == 0x2028
    ||| u == 0x2029
    ||| u == 0x202f
    ||| u == 0x205f
    ||| u == 0x3000
}

pub fn char_is_space(c: char) -> (r: bool)
    ensures
        r == is_space(c),
{
    let u = c as u32;
    (0x9 <= u && u <= 0xd) || u == 0x20 || u == 0x85 || u == 0xa0 || u == 0x1680 || (0x2000 <= u
        && u <= 0x200a) || u == 0x2028 || u == 0x2029 || u == 0x202f || u == 0x205f || u == 0x3000
}

/// `s` without its leading whitespace.
pub open spec fn trim_start(s: Seq<char>) -> Seq<char>
    decreases s.len(),
{
    if s.len() > 0 && is_space(s[0]) {
        trim_start(s.drop_first())
    } else {
        s
    }
}

/// `s` without its trailing whitespace.
pub open spec fn trim_end(s: Seq<char>) -> Seq<char>
    decreases s.len(),
{
    if s.len() > 0 && is_space(s.last()) {
        trim_end(s.drop_last())
    } else {
        s
    }
}

/// `str::trim`: `s` without whitespace at either end.
pub open spec fn trim(s: Seq<char>) -> Seq<char> {
    trim_start(trim_end(s))
}

/// Whether `s` is empty or all whitespace, i.e. `s.trim().is_empty()`.
pub open spec fn is_blank(s: Seq<char>) -> bool {
    forall|i: int| 0 <= i < s.len() ==> is_space(#[trigger] s[i])
}

proof fn lemma_trim_start_skip(s: Seq<char>, i: int)
    requires
        0 <= i <= s.len(),
        forall|k: int| 0 <= k < i ==> is_space(#[trigger] s[k]),
    ensures
        trim_start(s) == trim_start(s.subrange(i, s.len() as int)),
    decreases i,
{
    if i > 0 {
        assert(is_space(s[0]));
        let t = s.drop_first();
        lemma_trim_start_skip(t, i - 1);
        assert(t.subrange(i - 1, t.len() as int) =~= s.subrange(i, s.len() as int));
    } else {
        assert(s.subrange(0, s.len() as int) =~= s);
    }
}

proof fn lemma_trim_end_skip(s: Seq<char>, j: int)
    requires
        0 <= j <= s.len(),
        forall|k: int| j <= k < s.len() ==> is_space(#[trigger] s[k]),
    ensures
        trim_end(s) == trim_end(s.subrange(0, j)),
    decreases s.len() - j,
{
    if j < s.len() {
        assert(is_space(s.last()));
        let t = s.drop_last();
        lemma_trim_end_skip(t, j);
        assert(t.subrange(0, j) =~= s.subrange(0, j));
    } else {
        assert(s.subrange(0, j) =~= s);
    }
}

/// A trimmed string has no whitespace at its ends.
pub proof fn lemma_trim_ends(s: Seq<char>)
    ensures
        trim(s).len() > 0 ==> !is_space(trim(s)[0]) && !is_space(trim(s).last()),
        trim(s).len() == 0 <==> is_blank(s),
        trim(s).len() <= s.len(),
{
    lemma_trim_end_props(s);
    lemma_trim_start_props(trim_end(s));
    let e = trim_end(s);
    if trim(s).len() > 0 {
        lemma_trim_start_suffix(e);
        let t = trim(s);
        let d = e.len() - t.len();
        assert(t.last() == e.last());
    }
    if is_blank(s) {
        lemma_blank_trim_end(s);
    }
    if trim(s).len() == 0 && !is_blank(s) {
        let k = choose|k: int| 0 <= k < s.len() && !is_space(s[k]);
        lemma_trim_end_keeps(s, k);
        lemma_trim_start_keeps(e, k);
    }
}

proof fn lemma_trim_end_props(s: Seq<char>)
    ensures
        trim_end(s).len() <= s.len(),
        trim_end(s) == s.subrange(0, trim_end(s).len() as int),
        trim_end(s).len() > 0 ==> !is_space(trim_end(s).last()),
    decreases s.len(),
{
    if s.len() > 0 && is_space(s.last()) {
        lemma_trim_end_props(s.drop_last());
        assert(s.drop_last().subrange(0, trim_end(s).len() as int) =~= s.subrange(
            0,
            trim_end(s).len() as int,
        ));
    } else {
        assert(s.subrange(0, s.len() as int) =~= s);
    }
}

proof fn lemma_trim_start_props(s: Seq<char>)
    ensures
        trim_start(s).len() <= s.len(),
        trim_start(s) == s.subrange(s.len() - trim_start(s).len(), s.len() as int),
        trim_start(s).len() > 0 ==> !is_space(trim_start(s)[0]),
    decreases s.len(),
{
    if s.len() > 0 && is_space(s[0]) {
        lemma_trim_start_props(s.drop_first());
        let n = trim_start(s).len();
        assert(s.drop_first().subrange(s.drop_first().len() - n, s.drop_first().len() as int)
            =~= s.subrange(s.len() - n, s.len() as int));
    } else {
        assert(s.subrange(0, s.len() as int) =~= s);
    }
}

proof fn lemma_trim_start_suffix(s: Seq<char>)
    requires
        trim_start(s).len() > 0,
    ensures
        trim_start(s).last() == s.last(),
{
    lemma_trim_start_props(s);
}

proof fn lemma_blank_trim_end(s: Seq<char>)
    requires
        is_blank(s),
    ensures
        trim_end(s).len() == 0,
    decreases s.len(),
{
    if s.len() > 0 {
        assert(is_space(s[s.len() - 1]));
        lemma_blank_trim_end(s.drop_last());
    }
}

proof fn lemma_trim_end_keeps(s: Seq<char>, k: int)
    requires
        0 <= k < s.len(),
        !is_space(s[k]),
    ensures
        trim_end(s).len() > k,
        trim_end(s)[k] == s[k],
    decreases s.len(),
{
    lemma_trim_end_props(s);
    if s.len() > 0 && is_space(s.last()) {
        lemma_trim_end_keeps(s.drop_last(), k);
    }
}

proof fn lemma_trim_start_keeps(s: Seq<char>, k: int)
    requires
        0 <= k < s.len(),
        !is_space(s[k]),
    ensures
        trim_start(s).len() > 0,
    decreases s.len(),
{
    if s.len() > 0 && is_space(s[0]) {
        lemma_trim_start_keeps(s.drop_first(), k - 1);
    }
}

/// `str::trim`.
pub fn trim_str(s: &str) -> (r: String)
    ensures
        r@ == trim(s@),
{
    let v = chars_of(s);
    let mut hi = v.len();
    while hi > 0 && char_is_space(v[hi - 1])
        invariant
            v@ == s@,
            0 <= hi <= v.len(),
            forall|k: int| hi <= k < v.len() ==> is_space(#[trigger] v@[k]),
        decreases hi,
    {
        hi -= 1;
    }
    let mut lo: usize = 0;
    while lo < hi && char_is_space(v[lo])
        invariant
            v@ == s@,
            0 <= lo <= hi <= v.len(),
            forall|k: int| 0 <= k < lo ==> is_space(#[trigger] v@[k]),
        decreases hi - lo,
    {
        lo += 1;
    }
    proof {
        lemma_trim_end_skip(v@, hi as int);
        let e = v@.subrange(0, hi as int);
        assert(trim_end(e) == e);
        assert forall|k: int| 0 <= k < lo implies is_space(#[trigger] e[k]) by {
            assert(e[k] == v@[k]);
        }
        lemma_trim_start_skip(e, lo as int);
        let m = e.subrange(lo as int, hi as int);
        assert(m =~= v@.subrange(lo as int, hi as int));
        assert(trim_start(m) == m);
    }
    string_of_range(&v, lo, hi)
}

/// Whether `s` is empty or all whitespace.
pub fn str_is_blank(s: &str) -> (r: bool)
    ensures
        r == is_blank(s@),
{
    let v = chars_of(s);
    let mut i: usize = 0;
    while i < v.len()
        invariant
            v@ == s@,
            0 <= i <= v.len(),
            forall|k: int| 0 <= k < i ==> is_space(#[trigger] v@[k]),
        decreases v.len() - i,
    {
        if !char_is_space(v[i]) {
            return false;
        }
        i += 1;
    }
    true
}

// ---------------------------------------------------------------------------------------------
// Splitting and joining
// ---------------------------------------------------------------------------------------------

/// `str::split(sep)`: the pieces of `s` between occurrences of `sep` (always at least one).
pub open spec fn split(s: Seq<char>, sep: char) -> Seq<Seq<char>>
    decreases s.len(),
{
    if s.len() == 0 {
        seq![Seq::<char>::empty()]
    } else {
        let p = split(s.drop_last(), sep);
        if s.last() == sep {
            p.push(Seq::<char>::empty())
        } else {
            p.update(p.len() - 1, p.last().push(s.last()))
        }
    }
}

/// `pieces.join(sep)`.
pub open spec fn join(pieces: Seq<Seq<char>>, sep: Seq<char>) -> Seq<char>
    decreases pieces.len(),
{
    if pieces.len() == 0 {
        Seq::<char>::empty()
    } else if pieces.len() == 1 {
        pieces[0]
    } else {
        join(pieces.drop_last(), sep) + sep + pieces.last()
    }
}

/// The views of a list of strings.
pub open spec fn views(v: Seq<String>) -> Seq<Seq<char>> {
    v.map_values(|x: String| x@)
}

pub proof fn lemma_split_len(s: Seq<char>, sep: char)
    ensures
        split(s, sep).len() >= 1,
    decreases s.len(),
{
    if s.len() > 0 {
        lemma_split_len(s.drop_last(), sep);
    }
}

/// Splitting a string that does not hold `sep` gives the string itself.
pub proof fn lemma_split_no_sep(s: Seq<char>, sep: char)
    requires
        !s.contains(sep),
    ensures
        split(s, sep) == seq![s],
    decreases s.len(),
{
    if s.len() > 0 {
        assert(!s.drop_last().contains(sep)) by {
            if s.drop_last().contains(sep) {
                let k = choose|k: int| 0 <= k < s.drop_last().len() && s.drop_last()[k] == sep;
                assert(s[k] == sep);
            }
        }
        lemma_split_no_sep(s.drop_last(), sep);
        assert(s.last() != sep) by {
            assert(s[s.len() - 1] == s.last());
        }
        assert(s.drop_last().push(s.last()) =~= s);
        assert(seq![s.drop_last()].update(0, s) =~= seq![s]);
    } else {
        assert(s =~= Seq::<char>::empty());
    }
}

/// Appending text without `sep` only extends the last piece.
pub proof fn lemma_split_extend(s: Seq<char>, t: Seq<char>, sep: char)
    requires
        !t.contains(sep),
    ensures
        split(s + t, sep) == split(s, sep).update(
            split(s, sep).len() - 1,
            split(s, sep).last() + t,
        ),
    decreases t.len(),
{
    lemma_split_len(s, sep);
    if t.len() == 0 {
        assert(s + t =~= s);
        assert(split(s, sep).last() + t =~= split(s, sep).last());
        assert(split(s, sep).update(split(s, sep).len() - 1, split(s, sep).last())
            =~= split(s, sep));
    } else {
        let t0 = t.drop_last();
        assert(!t0.contains(sep)) by {
            if t0.contains(sep) {
                let k = choose|k: int| 0 <= k < t0.len() && t0[k] == sep;
                assert(t[k] == sep);
            }
        }
        lemma_split_extend(s, t0, sep);
        assert((s + t).drop_last() =~= s + t0);
        assert((s + t).last() == t.last());
        assert(t.last() != sep) by {
            assert(t[t.len() - 1] == t.last());
        }
        lemma_split_len(s + t0, sep);
        let p = split(s, sep);
        let p1 = split(s + t0, sep);
        assert(p1 == p.update(p.len() - 1, p.last() + t0));
        assert(p1.last() == p.last() + t0);
        assert((p.last() + t0).push(t.last()) =~= p.last() + t);
        assert(split(s + t, sep) == p1.update(p1.len() - 1, p1.last().push(t.last())));
        assert(split(s + t, sep) =~~= p.update(p.len() - 1, p.last() + t));
    }
}

/// No piece of a split holds the separator.
pub proof fn lemma_split_pieces(s: Seq<char>, sep: char)
    ensures
        forall|i: int| 0 <= i < split(s, sep).len() ==> !(#[trigger] split(s, sep)[i]).contains(
            sep,
        ),
    decreases s.len(),
{
    if s.len() > 0 {
        lemma_split_pieces(s.drop_last(), sep);
        lemma_split_len(s.drop_last(), sep);
        let p = split(s.drop_last(), sep);
        if s.last() != sep {
            let q = p.last().push(s.last());
            assert(!q.contains(sep)) by {
                if q.contains(sep) {
                    let k = choose|k: int| 0 <= k < q.len() && q[k] == sep;
                    if k < p.last().len() {
                        assert(p[p.len() - 1][k] == sep);
                    }
                }
            }
        } else {
            assert(!Seq::<char>::empty().contains(sep));
        }
    }
}

/// Text without `sep` in front of `b` only extends the first piece of `b`'s split.
pub proof fn lemma_split_prefix(a: Seq<char>, b: Seq<char>, sep: char)
    requires
        !a.contains(sep),
    ensures
        split(a + b, sep) == split(b, sep).update(0, a + split(b, sep)[0]),
    decreases b.len(),
{
    lemma_split_len(b, sep);
    if b.len() == 0 {
        assert(a + b =~= a);
        lemma_split_no_sep(a, sep);
        assert(a + Seq::<char>::empty() =~= a);
        assert(seq![Seq::<char>::empty()].update(0, a) =~= seq![a]);
    } else {
        let b0 = b.drop_last();
        let c = b.last();
        lemma_split_prefix(a, b0, sep);
        lemma_split_len(b0, sep);
        assert((a + b).drop_last() =~= a + b0);
        assert((a + b).last() == c);
        let q = split(b0, sep);
        let p = split(a + b0, sep);
        assert(p == q.update(0, a + q[0]));
        if c == sep {
            assert(split(a + b, sep) == p.push(Seq::<char>::empty()));
            assert(split(b, sep) == q.push(Seq::<char>::empty()));
            assert(p.push(Seq::<char>::empty()) =~~= q.push(Seq::<char>::empty()).update(
                0,
                a + q.push(Seq::<char>::empty())[0],
            ));
        } else {
            assert(split(a + b, sep) == p.update(p.len() - 1, p.last().push(c)));
            assert(split(b, sep) == q.update(q.len() - 1, q.last().push(c)));
            if q.len() == 1 {
                assert((a + q[0]).push(c) =~= a + q[0].push(c));
                assert(p.update(p.len() - 1, p.last().push(c)) =~~= q.update(
                    q.len() - 1,
                    q.last().push(c),
                ).update(0, a + q.update(q.len() - 1, q.last().push(c))[0]));
            } else {
                assert(p.update(p.len() - 1, p.last().push(c)) =~~= q.update(
                    q.len() - 1,
                    q.last().push(c),
                ).update(0, a + q.update(q.len() - 1, q.last().push(c))[0]));
            }
        }
    }
}

/// Splitting at a separator splits the text on either side of it separately.
pub proof fn lemma_split_at_sep(s: Seq<char>, y: Seq<char>, sep: char)
    ensures
        split(s + seq![sep] + y, sep) == split(s, sep) + split(y, sep),
    decreases y.len(),
{
    lemma_split_len(s, sep);
    lemma_split_len(y, sep);
    if y.len() == 0 {
        let t = s + seq![sep] + y;
        assert(t.drop_last() =~= s);
        assert(t.last() == sep);
        assert(split(s, sep).push(Seq::<char>::empty()) =~~= split(s, sep) + seq![
            Seq::<char>::empty(),
        ]);
    } else {
        let y0 = y.drop_last();
        let c = y.last();
        lemma_split_at_sep(s, y0, sep);
        lemma_split_len(y0, sep);
        let t = s + seq![sep] + y;
        assert(t.drop_last() =~= s + seq![sep] + y0);
        assert(t.last() == c);
        let l0 = split(s, sep) + split(y0, sep);
        if c == sep {
            assert(l0.push(Seq::<char>::empty()) =~~= split(s, sep) + split(y0, sep).push(
                Seq::<char>::empty(),
            ));
        } else {
            let q = split(y0, sep);
            assert(l0.update(l0.len() - 1, l0.last().push(c)) =~~= split(s, sep) + q.update(
                q.len() - 1,
                q.last().push(c),
            ));
        }
    }
}

/// Splitting what was joined with a one-character separator gives the pieces back, when no
/// piece holds that character.
pub proof fn lemma_split_join(pieces: Seq<Seq<char>>, sep: char)
    requires
        pieces.len() >= 1,
        forall|i: int| 0 <= i < pieces.len() ==> !(#[trigger] pieces[i]).contains(sep),
    ensures
        split(join(pieces, seq![sep]), sep) == pieces,
    decreases pieces.len(),
{
    if pieces.len() == 1 {
        assert(!pieces[0].contains(sep));
        lemma_split_no_sep(pieces[0], sep);
        assert(pieces =~= seq![pieces[0]]);
    } else {
        let init = pieces.drop_last();
        assert forall|i: int| 0 <= i < init.len() implies !(#[trigger] init[i]).contains(sep) by {
            assert(init[i] == pieces[i]);
        }
        lemma_split_join(init, sep);
        let j = join(init, seq![sep]);
        let last = pieces.last();
        assert(!last.contains(sep)) by {
            assert(pieces[pieces.len() - 1] == last);
        }
        let js = j + seq![sep];
        assert(js.drop_last() =~= j);
        assert(split(js, sep) == init.push(Seq::<char>::empty()));
        lemma_split_extend(js, last, sep);
        assert(join(pieces, seq![sep]) == js + last);
        let q = init.push(Seq::<char>::empty());
        assert(Seq::<char>::empty() + last =~= last);
        assert(q.update(q.len() - 1, q.last() + last) =~= pieces);
    }
}

/// `s.split(sep)` as owned strings.
pub fn split_str(s: &str, sep: char) -> (r: Vec<String>)
    ensures
        views(r@) == split(s@, sep),
{
    let v = chars_of(s);
    let mut out: Vec<String> = Vec::new();
    let mut start: usize = 0;
    let mut i: usize = 0;
    assert(views(out@).push(v@.subrange(0, 0)) =~~= split(v@.subrange(0, 0), sep));
    while i < v.len()
        invariant
            v@ == s@,
            0 <= start <= i <= v.len(),
            views(out@).push(v@.subrange(start as int, i as int)) == split(
                v@.subrange(0, i as int),
                sep,
            ),
        decreases v.len() - i,
    {
        let ghost prev = v@.subrange(0, i as int);
        assert(v@.subrange(0, i + 1).drop_last() =~= prev);
        assert(v@.subrange(0, i + 1).last() == v@[i as int]);
        if v[i] == sep {
            let piece = string_of_range(&v, start, i);
            let ghost old_out = out@;
            out.push(piece);
            assert(views(out@) =~= views(old_out).push(piece@));
            assert(views(out@) =~= split(prev, sep));
            start = i + 1;
            assert(views(out@).push(v@.subrange(start as int, i + 1)) =~~= split(
                v@.subrange(0, i + 1),
                sep,
            ));
        } else {
            let ghost p = split(prev, sep);
            assert(v@.subrange(start as int, i + 1) =~= v@.subrange(start as int, i as int).push(
                v@[i as int],
            ));
            assert(views(out@).push(v@.subrange(start as int, i + 1)) =~= p.update(
                p.len() - 1,
                p.last().push(v@[i as int]),
            ));
        }
        i += 1;
    }
    let last = string_of_range(&v, start, v.len());
    out.push(last);
    assert(v@.subrange(0, v@.len() as int) =~= v@);
    assert(views(out@) =~= split(s@, sep));
    out
}

/// `parts.join(sep)`.
pub fn join_strs(parts: &Vec<String>, sep: &str) -> (r: String)
    ensures
        r@ == join(views(parts@), sep@),
{
    let mut r = String::new();
    let mut i: usize = 0;
    while i < parts.len()
        invariant
            0 <= i <= parts.len(),
            r@ == join(views(parts@.subrange(0, i as int)), sep@),
        decreases parts.len() - i,
    {
        let ghost before = views(parts@.subrange(0, i as int));
        let ghost after = views(parts@.subrange(0, i + 1));
        assert(after.drop_last() =~= before);
        assert(after.last() == parts@[i as int]@);
        if i > 0 {
            push_str(&mut r, sep);
        }
        push_str(&mut r, parts[i].as_str());
        proof {
            if i == 0 {
                assert(r@ =~= after[0]);
            }
        }
        i += 1;
    }
    assert(parts@.subrange(0, parts@.len() as int) =~= parts@);
    r
}

/// `l` without one trailing carriage return.
pub open spec fn strip_cr(l: Seq<char>) -> Seq<char> {
    if l.len() > 0 && l.last() == '\r' {
        l.drop_last()
    } else {
        l
    }
}

pub open spec fn strip_cr_all(p: Seq<Seq<char>>) -> Seq<Seq<char>> {
    p.map_values(|l: Seq<char>| strip_cr(l))
}

/// `str::lines`: the pieces between `\n`s, each ended line losing one `\r` before its `\n`,
/// with no empty piece after a final `\n`.
pub open spec fn lines(s: Seq<char>) -> Seq<Seq<char>> {
    let p = split(s, '\n');
    let body = strip_cr_all(p.drop_last());
    if p.last().len() == 0 {
        body
    } else {
        body.push(p.last())
    }
}

/// `str::split_whitespace`, before empty pieces are dropped.
pub open spec fn split_space(s: Seq<char>) -> Seq<Seq<char>>
    decreases s.len(),
{
    if s.len() == 0 {
        seq![Seq::<char>::empty()]
    } else {
        let p = split_space(s.drop_last());
        if is_space(s.last()) {
            p.push(Seq::<char>::empty())
        } else {
            p.update(p.len() - 1, p.last().push(s.last()))
        }
    }
}

proof fn lemma_split_space_len(s: Seq<char>)
    ensures
        split_space(s).len() >= 1,
    decreases s.len(),
{
    if s.len() > 0 {
        lemma_split_space_len(s.drop_last());
    }
}

/// The non-empty pieces of `p`, in order.
pub open spec fn non_empty(p: Seq<Seq<char>>) -> Seq<Seq<char>>
    decreases p.len(),
{
    if p.len() == 0 {
        Seq::empty()
    } else if p.last().len() == 0 {
        non_empty(p.drop_last())
    } else {
        non_empty(p.drop_last()).push(p.last())
    }
}

/// `str::split_whitespace`: the runs of non-whitespace characters.
pub open spec fn words(s: Seq<char>) -> Seq<Seq<char>> {
    non_empty(split_space(s))
}

/// `s.lines()`, as owned strings.
pub fn lines_of(s: &str) -> (r: Vec<String>)
    ensures
        views(r@) == lines(s@),
{
    let p = split_str(s, '\n');
    proof {
        lemma_split_len(s@, '\n');
    }
    let n = p.len();
    let mut r: Vec<String> = Vec::new();
    let mut i: usize = 0;
    while i + 1 < n
        invariant
            n == p.len(),
            n >= 1,
            0 <= i <= n - 1,
            views(p@) == split(s@, '\n'),
            views(r@) == strip_cr_all(views(p@).subrange(0, i as int)),
        decreases n - i,
    {
        let v = chars_of(p[i].as_str());
        let line = if v.len() > 0 && v[v.len() - 1] == '\r' {
            string_of_range(&v, 0, v.len() - 1)
        } else {
            p[i].clone()
        };
        assert(line@ == strip_cr(p@[i as int]@)) by {
            if v.len() > 0 && v@.last() == '\r' {
                assert(v@.subrange(0, v.len() - 1) =~= v@.drop_last());
            }
        }
        let ghost before = r@;
        let ghost lv = line@;
        r.push(line);
        assert(views(r@) =~= views(before).push(lv));
        assert(views(p@).subrange(0, i + 1)[i as int] == p@[i as int]@);
        assert(strip_cr_all(views(p@).subrange(0, i + 1)) =~= strip_cr_all(
            views(p@).subrange(0, i as int),
        ).push(strip_cr(p@[i as int]@)));
        assert(views(r@) =~= strip_cr_all(views(p@).subrange(0, i + 1)));
        i += 1;
    }
    assert(views(p@).drop_last() =~= views(p@).subrange(0, n - 1));
    if !p[n - 1].as_str().is_empty() {
        let ghost before = r@;
        r.push(p[n - 1].clone());
        assert(views(r@) =~= views(before).push(p@[n - 1]@));
    }
    r
}

/// `s.split_whitespace()`, as owned strings.
pub fn words_of(s: &str) -> (r: Vec<String>)
    ensures
        views(r@) == words(s@),
{
    let v = chars_of(s);
    let mut r: Vec<String> = Vec::new();
    let mut start: usize = 0;
    let mut i: usize = 0;
    assert(split_space(v@.subrange(0, 0)) =~~= seq![v@.subrange(0, 0)]);
    assert(seq![v@.subrange(0, 0)].drop_last() =~= Seq::<Seq<char>>::empty());
    while i < v.len()
        invariant
            v@ == s@,
            0 <= start <= i <= v.len(),
            split_space(v@.subrange(0, i as int)).last() == v@.subrange(start as int, i as int),
            split_space(v@.subrange(0, i as int)).len() >= 1,
            views(r@) == non_empty(split_space(v@.subrange(0, i as int)).drop_last()),
        decreases v.len() - i,
    {
        let ghost prev = v@.subrange(0, i as int);
        let ghost p = split_space(prev);
        assert(v@.subrange(0, i + 1).drop_last() =~= prev);
        assert(v@.subrange(0, i + 1).last() == v@[i as int]);
        if char_is_space(v[i]) {
            let ghost q = p.push(Seq::<char>::empty());
            assert(split_space(v@.subrange(0, i + 1)) == q);
            assert(q.drop_last() =~= p);
            assert(p =~= p.drop_last().push(p.last()));
            if start < i {
                let ghost before = r@;
                r.push(string_of_range(&v, start, i));
                assert(views(r@) =~= views(before).push(v@.subrange(start as int, i as int)));
            }
            start = i + 1;
            assert(v@.subrange(start as int, i + 1) =~= Seq::<char>::empty());
        } else {
            let ghost q = p.update(p.len() - 1, p.last().push(v@[i as int]));
            assert(split_space(v@.subrange(0, i + 1)) == q);
            assert(q.drop_last() =~= p.drop_last());
            assert(v@.subrange(start as int, i + 1) =~= v@.subrange(start as int, i as int).push(
                v@[i as int],
            ));
        }
        i += 1;
    }
    let ghost p = split_space(v@);
    assert(v@.subrange(0, v@.len() as int) =~= v@);
    assert(p =~= p.drop_last().push(p.last()));
    if start < v.len() {
        let ghost before = r@;
        r.push(string_of_range(&v, start, v.len()));
        assert(views(r@) =~= views(before).push(v@.subrange(start as int, v@.len() as int)));
    }
    r
}

// ---------------------------------------------------------------------------------------------
// Prefixes, suffixes and substrings
// ---------------------------------------------------------------------------------------------

/// `s.starts_with(p)`.
pub open spec fn has_prefix(s: Seq<char>, p: Seq<char>) -> bool {
    p.len() <= s.len() && s.subrange(0, p.len() as int) == p
}

/// `s.ends_with(p)`.
pub open spec fn has_suffix(s: Seq<char>, p: Seq<char>) -> bool {
    p.len() <= s.len() && s.subrange(s.len() - p.len(), s.len() as int) == p
}

/// `s.contains(p)` for a string `p`.
pub open spec fn has_infix(s: Seq<char>, p: Seq<char>) -> bool {
    exists|i: int| 0 <= i && i + p.len() <= s.len() && #[trigger] s.subrange(i, i + p.len()) == p
}

fn matches_at(v: &Vec<char>, at: usize, p: &Vec<char>) -> (r: bool)
    requires
        at + p.len() <= v.len(),
    ensures
        r == (v@.subrange(at as int, at + p.len()) == p@),
{
    let mut k: usize = 0;
    while k < p.len()
        invariant
            at + p.len() <= v.len(),
            0 <= k <= p.len(),
            forall|j: int| 0 <= j < k ==> v@[at + j] == p@[j],
        decreases p.len() - k,
    {
        if v[at + k] != p[k] {
            assert(v@.subrange(at as int, at + p.len())[k as int] != p@[k as int]);
            return false;
        }
        k += 1;
    }
    assert(v@.subrange(at as int, at + p.len()) =~= p@);
    true
}

pub fn starts_with(s: &str, p: &str) -> (r: bool)
    ensures
        r == has_prefix(s@, p@),
{
    let v = chars_of(s);
    let pv = chars_of(p);
    if pv.len() > v.len() {
        return false;
    }
    matches_at(&v, 0, &pv)
}

pub fn ends_with(s: &str, p: &str) -> (r: bool)
    ensures
        r == has_suffix(s@, p@),
{
    let v = chars_of(s);
    let pv = chars_of(p);
    if pv.len() > v.len() {
        return false;
    }
    matches_at(&v, v.len() - pv.len(), &pv)
}

pub fn contains_str(s: &str, p: &str) -> (r: bool)
    ensures
        r == has_infix(s@, p@),
{
    let v = chars_of(s);
    let pv = chars_of(p);
    if pv.len() > v.len() {
        return false;
    }
    let mut i: usize = 0;
    let last = v.len() - pv.len();
    while i <= last
        invariant
            v@ == s@,
            pv@ == p@,
            pv.len() <= v.len(),
            last == v.len() - pv.len(),
            0 <= i <= last + 1,
            forall|j: int| 0 <= j < i ==> #[trigger] v@.subrange(j, j + pv.len()) != pv@,
        decreases v.len() - i,
    {
        if matches_at(&v, i, &pv) {
            return true;
        }
        if i == last {
            return false;
        }
        i += 1;
    }
    false
}

pub fn contains_char(s: &str, c: char) -> (r: bool)
    ensures
        r == s@.contains(c),
{
    let v = chars_of(s);
    let mut i: usize = 0;
    while i < v.len()
        invariant
            v@ == s@,
            0 <= i <= v.len(),
            forall|j: int| 0 <= j < i ==> v@[j] != c,
        decreases v.len() - i,
    {
        if v[i] == c {
            return true;
        }
        i += 1;
    }
    false
}

// ---------------------------------------------------------------------------------------------
// Numbers
// ---------------------------------------------------------------------------------------------

/// The ASCII digit for `d` (`0..=9`).
pub open spec fn digit(d: nat) -> char {
    if d == 0 {
        '0'
    } else if d == 1 {
        '1'
    } else if d == 2 {
        '2'
    } else if d == 3 {
        '3'
    } else if d == 4 {
        '4'
    } else if d == 5 {
        '5'
    } else if d == 6 {
        '6'
    } else if d == 7 {
        '7'
    } else if d == 8 {
        '8'
    } else {
        '9'
    }
}

/// The decimal representation of `n`, as `n.to_string()` prints it.
pub open spec fn decimal(n: nat) -> Seq<char>
    decreases n,
{
    if n < 10 {
        seq![digit(n)]
    } else {
        decimal(n / 10).push(digit(n % 10))
    }
}

fn digit_char(d: u64) -> (c: char)
    requires
        d < 10,
    ensures
        c == digit(d as nat),
{
    match d {
        0 => '0',
        1 => '1',
        2 => '2',
        3 => '3',
        4 => '4',
        5 => '5',
        6 => '6',
        7 => '7',
        8 => '8',
        _ => '9',
    }
}

/// Appends the decimal representation of `n` to `s`.
pub fn push_decimal(s: &mut String, n: u64)
    ensures
        final(s)@ == old(s)@ + decimal(n as nat),
    decreases n,
{
    if n < 10 {
        push_char(s, digit_char(n));
        assert(final(s)@ =~= old(s)@ + decimal(n as nat));
    } else {
        push_decimal(s, n / 10);
        push_char(s, digit_char(n % 10));
        assert(final(s)@ =~= old(s)@ + decimal(n as nat));
    }
}

/// `n.to_string()`.
pub fn fmt_decimal(n: u64) -> (r: String)
    ensures
        r@ == decimal(n as nat),
{
    let mut r = String::new();
    push_decimal(&mut r, n);
    assert(r@ =~= decimal(n as nat));
    r
}

/// Whether `c` is a digit in base `radix` (at most ten).
pub open spec fn is_digit_in(c: char, radix: nat) -> bool {
    48 <= (c as u32) < 48 + radix
}

/// The value of the digits `s` in base `radix`.
pub open spec fn digits_value(s: Seq<char>, radix: nat) -> nat
    decreases s.len(),
{
    if s.len() == 0 {
        0
    } else {
        digits_value(s.drop_last(), radix) * radix + ((s.last() as u32) - 48) as nat
    }
}

/// `s` without one leading `+`, if it has one.
pub open spec fn unsigned_digits(s: Seq<char>) -> Seq<char> {
    if s.len() > 0 && s[0] == '+' {
        s.drop_first()
    } else {
        s
    }
}

/// Whether every character of `t` is a digit in base `radix`.
pub open spec fn all_digits_in(t: Seq<char>, radix: nat) -> bool {
    forall|i: int| 0 <= i < t.len() ==> is_digit_in(#[trigger] t[i], radix)
}

/// `str::parse` / `from_str_radix` for an unsigned integer type whose largest value is `max`:
/// an optional `+` followed by one or more digits in base `radix`, with a value of at most
/// `max`; anything else is an error.
pub open spec fn parse_unsigned(s: Seq<char>, radix: nat, max: nat) -> Option<nat> {
    let t = unsigned_digits(s);
    if t.len() > 0 && all_digits_in(t, radix) && digits_value(t, radix) <= max {
        Some(digits_value(t, radix))
    } else {
        None
    }
}

proof fn lemma_digits_value_grows(s: Seq<char>, radix: nat, c: char)
    requires
        1 <= radix,
        is_digit_in(c, radix),
    ensures
        digits_value(s.push(c), radix) >= digits_value(s, radix),
{
    assert(s.push(c).drop_last() =~= s);
    assert(digits_value(s, radix) * radix >= digits_value(s, radix)) by (nonlinear_arith)
        requires
            radix >= 1,
    ;
}

/// Parses `v[lo..hi]` as `parse_unsigned` says.
pub fn parse_unsigned_range(v: &Vec<char>, lo: usize, hi: usize, radix: u64, max: u64) -> (r:
    Option<u64>)
    requires
        lo <= hi <= v.len(),
        2 <= radix <= 10,
        max <= u32::MAX,
    ensures
        r matches Some(n) ==> parse_unsigned(v@.subrange(lo as int, hi as int), radix as nat, max as nat)
            == Some(n as nat),
        r is None ==> parse_unsigned(v@.subrange(lo as int, hi as int), radix as nat, max as nat)
            is None,
{
    let ghost s = v@.subrange(lo as int, hi as int);
    let mut start = lo;
    if lo < hi && v[lo] == '+' {
        start = lo + 1;
    }
    let ghost t = v@.subrange(start as int, hi as int);
    assert(t =~= unsigned_digits(s));
    if start == hi {
        return None;
    }
    let mut value: u64 = 0;
    let mut over = false;
    let mut i = start;
    while i < hi
        invariant
            lo <= start < hi <= v.len(),
            start <= i <= hi,
            2 <= radix <= 10,
            max <= u32::MAX,
            t == v@.subrange(start as int, hi as int),
            s == v@.subrange(lo as int, hi as int),
            t == unsigned_digits(s),
            forall|k: int| start <= k < i ==> is_digit_in(#[trigger] v@[k], radix as nat),
            !over ==> value as nat == digits_value(v@.subrange(start as int, i as int), radix as nat)
                && value <= max,
            over ==> digits_value(v@.subrange(start as int, i as int), radix as nat) > max,
        decreases hi - i,
    {
        let c = v[i];
        let u = c as u32;
        if !(48 <= u && (u as u64) < 48 + radix) {
            assert(t[i - start] == c);
            assert(!is_digit_in(t[i - start], radix as nat));
            assert(!all_digits_in(t, radix as nat));
            assert(parse_unsigned(s, radix as nat, max as nat) is None);
            return None;
        }
        let ghost pre = v@.subrange(start as int, i as int);
        assert(v@.subrange(start as int, i + 1) =~= pre.push(c));
        assert(pre.push(c).drop_last() =~= pre);
        proof {
            lemma_digits_value_grows(pre, radix as nat, c);
        }
        if !over {
            assert(value * radix <= u32::MAX * 10) by (nonlinear_arith)
                requires
                    value <= u32::MAX,
                    radix <= 10,
            ;
            let next = value * radix + (u as u64 - 48);
            if next > max {
                over = true;
            } else {
                value = next;
            }
        }
        i += 1;
    }
    assert(all_digits_in(t, radix as nat)) by {
        assert forall|k: int| 0 <= k < t.len() implies is_digit_in(#[trigger] t[k], radix as nat) by {
            assert(t[k] == v@[start + k]);
        }
    }
    if over {
        None
    } else {
        Some(value)
    }
}

/// `s.parse::<u16>()`, as an `Option`.
pub fn parse_u16(s: &str) -> (r: Option<u16>)
    ensures
        r matches Some(n) ==> parse_unsigned(s@, 10, 65535) == Some(n as nat),
        r is None ==> parse_unsigned(s@, 10, 65535) is None,
{
    let v = chars_of(s);
    assert(v@.subrange(0, v@.len() as int) =~= v@);
    match parse_unsigned_range(&v, 0, v.len(), 10, 65535) {
        Some(n) => Some(n as u16),
        None => None,
    }
}

/// `s.parse::<u32>()`, as an `Option`.
pub fn parse_u32(s: &str) -> (r: Option<u32>)
    ensures
        r matches Some(n) ==> parse_unsigned(s@, 10, 4294967295) == Some(n as nat),
        r is None ==> parse_unsigned(s@, 10, 4294967295) is None,
{
    let v = chars_of(s);
    assert(v@.subrange(0, v@.len() as int) =~= v@);
    match parse_unsigned_range(&v, 0, v.len(), 10, 4294967295) {
        Some(n) => Some(n as u32),
        None => None,
    }
}

// ---------------------------------------------------------------------------------------------
// Case and order
// ---------------------------------------------------------------------------------------------

/// What `str::to_lowercase` returns for `s`: each character mapped by Unicode's lowercase
/// mapping, with the final-sigma rule.
pub uninterp spec fn lowercase(s: Seq<char>) -> Seq<char>;

/// Whether every character of `s` is ASCII.
pub open spec fn all_ascii(s: Seq<char>) -> bool {
    forall|i: int| 0 <= i < s.len() ==> (#[trigger] s[i] as u32) < 128
}

/// ASCII lowercasing: `A`..=`Z` become `a`..=`z`, every other character stays.
pub open spec fn ascii_lower(s: Seq<char>) -> Seq<char> {
    s.map_values(|c: char| if 'A' <= c && c <= 'Z' { ((c as u32) + 32) as char } else { c })
}

/// `str::to_lowercase`: the Unicode lowercase mapping, which on ASCII text lowercases `A`..=`Z`
/// and keeps every other character.
#[verifier::external_body]
pub(crate) fn to_lowercase(s: &str) -> (r: String)
    ensures
        r@ == lowercase(s@),
        all_ascii(s@) ==> r@ == ascii_lower(s@),
{
    s.to_lowercase()
}

/// The outcome of comparing two values: which comes first.
#[derive(Clone, Copy, PartialEq, Eq, Debug)]
pub enum Order {
    Before,
    Same,
    After,
}

/// Whether `a` sorts strictly before `b` as `String`s compare: by code point, a proper prefix
/// first.
pub open spec fn lex_lt(a: Seq<char>, b: Seq<char>) -> bool
    decreases a.len(),
{
    if a.len() == 0 {
        b.len() > 0
    } else if b.len() == 0 {
        false
    } else if a[0] != b[0] {
        a[0] < b[0]
    } else {
        lex_lt(a.drop_first(), b.drop_first())
    }
}

pub open spec fn lex_order(a: Seq<char>, b: Seq<char>) -> Order {
    if lex_lt(a, b) {
        Order::Before
    } else if a == b {
        Order::Same
    } else {
        Order::After
    }
}

pub proof fn lemma_lex_irreflexive(a: Seq<char>)
    ensures
        !lex_lt(a, a),
    decreases a.len(),
{
    if a.len() > 0 {
        lemma_lex_irreflexive(a.drop_first());
    }
}

pub proof fn lemma_lex_transitive(a: Seq<char>, b: Seq<char>, c: Seq<char>)
    requires
        lex_lt(a, b),
        lex_lt(b, c),
    ensures
        lex_lt(a, c),
    decreases a.len(),
{
    if a.len() > 0 && b.len() > 0 && c.len() > 0 {
        if a[0] == b[0] && b[0] == c[0] {
            lemma_lex_transitive(a.drop_first(), b.drop_first(), c.drop_first());
        }
    }
}

pub proof fn lemma_lex_total(a: Seq<char>, b: Seq<char>)
    ensures
        lex_lt(a, b) || lex_lt(b, a) || a == b,
        !(lex_lt(a, b) && lex_lt(b, a)),
    decreases a.len(),
{
    if a.len() > 0 && b.len() > 0 {
        lemma_lex_total(a.drop_first(), b.drop_first());
        if a[0] == b[0] && a.drop_first() == b.drop_first() {
            assert(a =~= seq![a[0]] + a.drop_first());
            assert(b =~= seq![b[0]] + b.drop_first());
        }
    } else if a.len() == 0 && b.len() == 0 {
        assert(a =~= b);
    }
}

/// `lex_lt` is a strict weak order (indeed a strict total order).
pub proof fn lemma_lex_weak(a: Seq<char>, b: Seq<char>, c: Seq<char>)
    ensures
        !lex_lt(a, a),
        lex_lt(a, b) && lex_lt(b, c) ==> lex_lt(a, c),
        lex_lt(a, c) ==> lex_lt(a, b) || lex_lt(b, c),
{
    lemma_lex_irreflexive(a);
    if lex_lt(a, b) && lex_lt(b, c) {
        lemma_lex_transitive(a, b, c);
    }
    if lex_lt(a, c) && !lex_lt(a, b) {
        lemma_lex_total(a, b);
        if lex_lt(b, a) {
            lemma_lex_transitive(b, a, c);
        }
    }
}

/// Whether `a` sorts before `b`.
pub fn lex_before(a: &str, b: &str) -> (r: bool)
    ensures
        r == lex_lt(a@, b@),
{
    match str_compare(a, b) {
        Order::Before => true,
        _ => false,
    }
}

/// Whether `a` sorts before `b` once both are lowercased.
pub fn lower_before(a: &str, b: &str) -> (r: bool)
    ensures
        r == lex_lt(lowercase(a@), lowercase(b@)),
{
    let la = to_lowercase(a);
    let lb = to_lowercase(b);
    lex_before(la.as_str(), lb.as_str())
}

/// Compares two character sequences as strings compare.
pub fn lex_compare(a: &Vec<char>, b: &Vec<char>) -> (r: Order)
    ensures
        r == lex_order(a@, b@),
{
    let mut i: usize = 0;
    assert(a@.subrange(0, a@.len() as int) =~= a@);
    assert(b@.subrange(0, b@.len() as int) =~= b@);
    while i < a.len() && i < b.len()
        invariant
            0 <= i <= a.len(),
            i <= b.len(),
            a@.subrange(0, i as int) == b@.subrange(0, i as int),
            lex_lt(a@, b@) == lex_lt(a@.subrange(i as int, a@.len() as int), b@.subrange(i as int, b@.len() as int)),
        decreases a.len() - i,
    {
        let x = a[i];
        let y = b[i];
        let ghost sa = a@.subrange(i as int, a@.len() as int);
        let ghost sb = b@.subrange(i as int, b@.len() as int);
        assert(sa[0] == a@[i as int]);
        assert(sb[0] == b@[i as int]);
        if x < y {
            proof { lemma_lex_total(a@, b@); }
            return Order::Before;
        }
        if x > y {
            proof {
                lemma_lex_total(a@, b@);
                if a@ == b@ {
                    assert(a@[i as int] == b@[i as int]);
                }
            }
            return Order::After;
        }
        assert(sa.drop_first() =~= a@.subrange(i + 1, a@.len() as int));
        assert(sb.drop_first() =~= b@.subrange(i + 1, b@.len() as int));
        assert(a@[i as int] == b@[i as int]);
        assert(a@.subrange(0, i + 1) =~= a@.subrange(0, i as int).push(a@[i as int]));
        assert(b@.subrange(0, i + 1) =~= b@.subrange(0, i as int).push(b@[i as int]));
        i += 1;
    }
    proof { lemma_lex_total(a@, b@); }
    if i < b.len() {
        return Order::Before;
    }
    if i < a.len() {
        assert(a@ != b@) by {
            assert(a@.len() != b@.len());
        }
        return Order::After;
    }
    assert(a@ =~= a@.subrange(0, i as int));
    assert(b@ =~= b@.subrange(0, i as int));
    Order::Same
}

/// Compares two strings as `str::cmp` does.
pub fn str_compare(a: &str, b: &str) -> (r: Order)
    ensures
        r == lex_order(a@, b@),
{
    lex_compare(&chars_of(a), &chars_of(b))
}

// ---------------------------------------------------------------------------------------------
// Facts about the definitions above
// ---------------------------------------------------------------------------------------------

/// Trimming a trimmed string changes nothing.
pub proof fn lemma_trim_idempotent(s: Seq<char>)
    ensures
        trim(trim(s)) == trim(s),
{
    lemma_trim_ends(s);
    let t = trim(s);
    if t.len() > 0 {
        assert(trim_end(t) == t);
        assert(trim_start(t) == t);
    } else {
        assert(trim_end(t) == t);
        assert(trim_start(t) == t);
    }
}

proof fn lemma_digit_value(d: nat)
    requires
        d < 10,
    ensures
        is_digit_in(digit(d), 10),
        ((digit(d) as u32) - 48) as nat == d,
        digit(d) != '+',
{
}

/// The decimal form of a number is all digits, does not start with `+`, and reads back as the
/// number.
pub proof fn lemma_decimal_digits(n: nat)
    ensures
        decimal(n).len() > 0,
        all_digits_in(decimal(n), 10),
        decimal(n)[0] != '+',
        digits_value(decimal(n), 10) == n,
    decreases n,
{
    if n < 10 {
        lemma_digit_value(n);
        assert(decimal(n).drop_last() =~= Seq::<char>::empty());
        assert(digits_value(Seq::<char>::empty(), 10) == 0);
        assert(decimal(n).last() == digit(n));
        assert(digits_value(decimal(n), 10) == n);
    } else {
        lemma_decimal_digits(n / 10);
        lemma_digit_value(n % 10);
        let s = decimal(n);
        assert(s.drop_last() =~= decimal(n / 10));
        assert forall|i: int| 0 <= i < s.len() implies is_digit_in(#[trigger] s[i], 10) by {
            if i < s.len() - 1 {
                assert(s[i] == decimal(n / 10)[i]);
            }
        }
        assert(s[0] == decimal(n / 10)[0]);
        assert(s.last() == digit(n % 10));
        assert((n / 10) * 10 + n % 10 == n) by (nonlinear_arith);
        assert(digits_value(s, 10) == digits_value(decimal(n / 10), 10) * 10 + (
        (s.last() as u32) - 48) as nat);
        assert(digits_value(s, 10) == n);
    }
}

/// A number printed in decimal parses back to itself.
pub proof fn lemma_parse_decimal(n: nat, max: nat)
    requires
        n <= max,
    ensures
        parse_unsigned(decimal(n), 10, max) == Some(n),
{
    lemma_decimal_digits(n);
    assert(unsigned_digits(decimal(n)) == decimal(n));
}

/// Every character of a trimmed string comes from the string.
pub proof fn lemma_trim_chars(s: Seq<char>)
    ensures
        forall|i: int| 0 <= i < trim(s).len() ==> s.contains(#[trigger] trim(s)[i]),
{
    lemma_trim_end_props(s);
    let e = trim_end(s);
    lemma_trim_start_props(e);
    let t = trim(s);
    assert forall|i: int| 0 <= i < t.len() implies s.contains(#[trigger] t[i]) by {
        let k = e.len() - t.len() + i;
        assert(t[i] == e[k]);
        assert(e[k] == s[k]);
    }
}

// ---------------------------------------------------------------------------------------------
// Comma-separated lists of names
// ---------------------------------------------------------------------------------------------

/// The names an index lists: its comma-separated pieces, trimmed, blanks dropped.
pub open spec fn index_names(pieces: Seq<Seq<char>>) -> Seq<Seq<char>>
    decreases pieces.len(),
{
    if pieces.len() == 0 {
        Seq::empty()
    } else {
        let init = index_names(pieces.drop_last());
        let t = trim(pieces.last());
        if t.len() > 0 {
            init.push(t)
        } else {
            init
        }
    }
}

/// A name that can stand in the index as it is.
pub open spec fn index_ready(n: Seq<char>) -> bool {
    n.len() > 0 && trim(n) == n && !n.contains(',')
}

pub proof fn lemma_index_names_ready(pieces: Seq<Seq<char>>)
    requires
        forall|i: int| 0 <= i < pieces.len() ==> !(#[trigger] pieces[i]).contains(','),
    ensures
        forall|i: int| 0 <= i < index_names(pieces).len() ==> index_ready(
            #[trigger] index_names(pieces)[i],
        ),
    decreases pieces.len(),
{
    if pieces.len() > 0 {
        let init = pieces.drop_last();
        assert forall|i: int| 0 <= i < init.len() implies !(#[trigger] init[i]).contains(',') by {
            assert(init[i] == pieces[i]);
        }
        lemma_index_names_ready(init);
        let p = pieces.last();
        let t = trim(p);
        if t.len() > 0 {
            lemma_trim_idempotent(p);
            lemma_trim_chars(p);
            assert(!p.contains(',')) by {
                assert(pieces[pieces.len() - 1] == p);
            }
            assert(!t.contains(',')) by {
                if t.contains(',') {
                    let k = choose|k: int| 0 <= k < t.len() && t[k] == ',';
                    assert(p.contains(t[k]));
                }
            }
            let r = index_names(pieces);
            assert forall|i: int| 0 <= i < r.len() implies index_ready(#[trigger] r[i]) by {
                if i < r.len() - 1 {
                    assert(r[i] == index_names(init)[i]);
                }
            }
        }
    }
}

pub proof fn lemma_index_names_identity(names: Seq<Seq<char>>)
    requires
        forall|i: int| 0 <= i < names.len() ==> index_ready(#[trigger] names[i]),
    ensures
        index_names(names) == names,
    decreases names.len(),
{
    if names.len() > 0 {
        let init = names.drop_last();
        assert forall|i: int| 0 <= i < init.len() implies index_ready(#[trigger] init[i]) by {
            assert(init[i] == names[i]);
        }
        lemma_index_names_identity(init);
        assert(index_ready(names[names.len() - 1]));
        assert(init.push(names.last()) =~= names);
    }
}

/// An index written from ready names reads back as those names.
pub proof fn lemma_index_of_join(names: Seq<Seq<char>>)
    requires
        forall|i: int| 0 <= i < names.len() ==> index_ready(#[trigger] names[i]),
    ensures
        index_names(split(join(names, ","@), ',')) == names,
{
    reveal_strlit(",");
    assert(","@ =~= seq![',']);
    if names.len() == 0 {
        let s = split(join(names, ","@), ',');
        assert(s =~= seq![Seq::<char>::empty()]);
        assert(s.drop_last() =~= Seq::<Seq<char>>::empty());
        assert(trim(Seq::<char>::empty()) =~= Seq::<char>::empty());
        assert(s.last() == Seq::<char>::empty());
        assert(index_names(s.drop_last()) == Seq::<Seq<char>>::empty());
        assert(index_names(s) == index_names(s.drop_last()));
        assert(index_names(s) =~= names);
    } else {
        assert forall|i: int| 0 <= i < names.len() implies !(#[trigger] names[i]).contains(',') by {
            assert(index_ready(names[i]));
        }
        lemma_split_join(names, ',');
        lemma_index_names_identity(names);
    }
}

// ---------------------------------------------------------------------------------------------
// Paths
// ---------------------------------------------------------------------------------------------

/// `PathBuf::join` on Unix: an absolute `comp` replaces `base`; otherwise `comp` is appended,
/// with a `/` between unless `base` is empty or already ends in one.
pub open spec fn path_join(base: Seq<char>, comp: Seq<char>) -> Seq<char> {
    if comp.len() > 0 && comp[0] == '/' {
        comp
    } else if base.len() == 0 || base.last() == '/' {
        base + comp
    } else {
        base + seq!['/'] + comp
    }
}

/// `Path::new(base).join(comp)`, as a string.
pub fn join_path(base: &str, comp: &str) -> (r: String)
    ensures
        r@ == path_join(base@, comp@),
{
    let cv = chars_of(comp);
    if cv.len() > 0 && cv[0] == '/' {
        return owned(comp);
    }
    let bv = chars_of(base);
    let mut r = owned(base);
    if bv.len() > 0 && bv[bv.len() - 1] != '/' {
        push_char(&mut r, '/');
    }
    push_str(&mut r, comp);
    r
}

/// `Path::components` on Unix, each as a string: `/` for the root, `.` for a leading current
/// directory, `..` for a parent, the name otherwise. Empty pieces and other `.` pieces drop out.
pub open spec fn components(s: Seq<char>) -> Seq<Seq<char>> {
    let raw = split(s, '/');
    let rooted = s.len() > 0 && s[0] == '/';
    let head: Seq<Seq<char>> = if rooted {
        seq![seq!['/']]
    } else if raw[0] == seq!['.'] {
        seq![seq!['.']]
    } else {
        Seq::empty()
    };
    head + kept_pieces(raw)
}

/// The pieces that name something: not empty and not `.`.
pub open spec fn kept_pieces(raw: Seq<Seq<char>>) -> Seq<Seq<char>>
    decreases raw.len(),
{
    if raw.len() == 0 {
        Seq::empty()
    } else {
        let init = kept_pieces(raw.drop_last());
        let p = raw.last();
        if p.len() == 0 || p == seq!['.'] {
            init
        } else {
            init.push(p)
        }
    }
}

/// `Path::file_name`: the last component when it is a name, not the root, `.` or `..`.
pub open spec fn file_name(s: Seq<char>) -> Option<Seq<char>> {
    let c = components(s);
    if c.len() > 0 && c.last() != seq!['/'] && c.last() != seq!['.'] && c.last() != seq!['.', '.'] {
        Some(c.last())
    } else {
        None
    }
}

/// `Path::components` as strings.
pub fn path_components(s: &str) -> (r: Vec<String>)
    ensures
        views(r@) == components(s@),
{
    let raw = split_str(s, '/');
    proof {
        lemma_split_len(s@, '/');
    }
    let v = chars_of(s);
    let mut r: Vec<String> = Vec::new();
    if v.len() > 0 && v[0] == '/' {
        r.push(owned("/"));
        proof {
            reveal_strlit("/");
        }
    } else if str_eq(raw[0].as_str(), ".") {
        r.push(owned("."));
        proof {
            reveal_strlit(".");
        }
    }
    proof {
        reveal_strlit(".");
        reveal_strlit("/");
    }
    let ghost head = views(r@);
    assert(head + kept_pieces(views(raw@).subrange(0, 0)) =~= head);
    let mut i: usize = 0;
    while i < raw.len()
        invariant
            0 <= i <= raw.len(),
            views(raw@) == split(s@, '/'),
            views(r@) == head + kept_pieces(views(raw@).subrange(0, i as int)),
        decreases raw.len() - i,
    {
        let ghost upto = views(raw@).subrange(0, i + 1);
        assert(upto.drop_last() =~= views(raw@).subrange(0, i as int));
        assert(upto.last() == raw@[i as int]@);
        proof {
            reveal_strlit(".");
        }
        if !raw[i].as_str().is_empty() && !str_eq(raw[i].as_str(), ".") {
            let ghost before = r@;
            r.push(raw[i].clone());
            assert(views(r@) =~= views(before).push(raw@[i as int]@));
            assert("."@ =~= seq!['.']);
        } else {
            assert("."@ =~= seq!['.']);
        }
        i += 1;
    }
    assert(views(raw@).subrange(0, raw@.len() as int) =~= views(raw@));
    assert("/"@ =~= seq!['/']);
    assert("."@ =~= seq!['.']);
    r
}

/// Whether two paths are equal as `Path`s compare: component by component.
pub fn same_path(a: &str, b: &str) -> (r: bool)
    ensures
        r == (components(a@) == components(b@)),
{
    let ca = path_components(a);
    let cb = path_components(b);
    if ca.len() != cb.len() {
        assert(views(ca@).len() != views(cb@).len());
        return false;
    }
    let mut i: usize = 0;
    while i < ca.len()
        invariant
            0 <= i <= ca.len(),
            ca.len() == cb.len(),
            views(ca@) == components(a@),
            views(cb@) == components(b@),
            forall|k: int| 0 <= k < i ==> views(ca@)[k] == views(cb@)[k],
        decreases ca.len() - i,
    {
        if !str_eq(ca[i].as_str(), cb[i].as_str()) {
            assert(views(ca@)[i as int] != views(cb@)[i as int]);
            return false;
        }
        i += 1;
    }
    assert(views(ca@) =~= views(cb@));
    true
}

/// `Path::file_name`, as a string.
pub fn path_file_name(s: &str) -> (r: Option<String>)
    ensures
        match r {
            Some(n) => file_name(s@) == Some(n@),
            None => file_name(s@) is None,
        },
{
    let c = path_components(s);
    proof {
        reveal_strlit("/");
        reveal_strlit(".");
        reveal_strlit("..");
        assert("/"@ =~= seq!['/']);
        assert("."@ =~= seq!['.']);
        assert(".."@ =~= seq!['.', '.']);
    }
    if c.len() == 0 {
        return None;
    }
    let last = &c[c.len() - 1];
    assert(last@ == components(s@).last());
    if str_eq(last.as_str(), "/") || str_eq(last.as_str(), ".") || str_eq(last.as_str(), "..") {
        None
    } else {
        Some(last.clone())
    }
}

/// What `Path::parent` gives for `path`, as text: the path without its final component, `None`
/// when it ends in a root or is empty.
pub uninterp spec fn path_parent(path: Seq<char>) -> Option<Seq<char>>;

/// `Path::new(path).parent()`, as text. Its rules (separators collapsed, a trailing `.` dropped,
/// a relative one-component path giving `Some("")`) are not restated here: the result is named
/// by [`path_parent`].
#[verifier::external_body]
pub(crate) fn parent_of(path: &str) -> (r: Option<String>)
    ensures
        match r {
            Some(p) => path_parent(path@) == Some(p@),
            None => path_parent(path@) is None,
        },
{
    match std::path::Path::new(path).parent() {
        Some(p) => Some(p.to_string_lossy().into_owned()),
        None => None,
    }
}

/// What `Path::strip_prefix` gives for `path` and `base`, as text: the rest of `path` below
/// `base`, `None` when `base` is not one of its ancestors.
pub uninterp spec fn path_below(path: Seq<char>, base: Seq<char>) -> Option<Seq<char>>;

/// `Path::new(path).strip_prefix(base)`, as text. Prefixes are matched component by component;
/// the result is named by [`path_below`] rather than restated.
#[verifier::external_body]
pub(crate) fn strip_path_prefix(path: &str, base: &str) -> (r: Option<String>)
    ensures
        match r {
            Some(p) => path_below(path@, base@) == Some(p@),
            None => path_below(path@, base@) is None,
        },
{
    match std::path::Path::new(path).strip_prefix(base) {
        Ok(p) => Some(p.to_string_lossy().into_owned()),
        Err(_) => None,
    }
}

/// The UTF-8 encoding of `s`, as `str::as_bytes` gives it.
pub open spec fn utf8(s: Seq<char>) -> Seq<u8> {
    vstd::utf8::encode_utf8(s)
}

} // verus!
