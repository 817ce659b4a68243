//! Texts as sequences of characters: white space, parts between separators,
//! and comments.

use vstd::prelude::*;

verus! {

/// The white space of Unicode: what `char::is_whitespace` accepts.
pub open spec fn is_space(c: char) -> bool {
    let n = c as u32;
    ||| 0x09 <= n <= 0x0D
    ||| n == 0x20
    ||| n == 0x85
    ||| n == 0xA0
    ||| n == 0x1680
    ||| 0x2000 <= n <= 0x200A
    ||| n == 0x2028
    ||| n == 0x2029
    ||| n == 0x202F
    ||| n == 0x205F
    ||| n == 0x3000
}

/// The place of the first `c` in `s`; the length of `s` where it has none.
pub open spec fn position(s: Seq<char>, c: char) -> int
    decreases s.len(),
{
    if s.len() == 0 || s[0] == c {
        0
    } else {
        1 + position(s.skip(1), c)
    }
}

/// `s` without the white space it begins with.
pub open spec fn trim_start(s: Seq<char>) -> Seq<char>
    decreases s.len(),
{
    if s.len() > 0 && is_space(s[0]) {
        trim_start(s.skip(1))
    } else {
        s
    }
}

/// `s` without the white space it ends with.
pub open spec fn trim_end(s: Seq<char>) -> Seq<char>
    decreases s.len(),
{
    if s.len() > 0 && is_space(s.last()) {
        trim_end(s.drop_last())
    } else {
        s
    }
}

/// `s` without the white space around it.
pub open spec fn trim(s: Seq<char>) -> Seq<char> {
    trim_end(trim_start(s))
}

/// The parts of `s` between the separators `sep`, each without the white
/// space around it, those left out that are empty then.
pub open spec fn pieces(s: Seq<char>, sep: char) -> Seq<Seq<char>>
    decreases s.len(),
{
    let n = position(s, sep);
    let head = trim(s.take(n));
    let rest = if 0 <= n < s.len() {
        pieces(s.skip(n + 1), sep)
    } else {
        Seq::empty()
    };
    if head.len() > 0 {
        seq![head] + rest
    } else {
        rest
    }
}

/// `s` without its comments: each runs from a `#` to the end of its line and
/// takes the line's end with it. The last line ends where the text ends.
pub open spec fn uncommented(s: Seq<char>) -> Seq<char>
    decreases s.len(),
{
    if s.len() == 0 {
        s
    } else if s[0] == '#' {
        if 0 <= position(s, '\n') < s.len() {
            uncommented(s.skip(position(s, '\n') + 1))
        } else {
            Seq::empty()
        }
    } else {
        seq![s[0]] + uncommented(s.skip(1))
    }
}

/// The views of the texts in `v`.
pub open spec fn views(v: Seq<Vec<char>>) -> Seq<Seq<char>> {
    v.map_values(|t: Vec<char>| t@)
}

/// The first `c` of `s` is where `position` says.
pub proof fn lemma_position(s: Seq<char>, c: char)
    ensures
        0 <= position(s, c) <= s.len(),
        forall|j: int| 0 <= j < position(s, c) ==> s[j] != c,
        position(s, c) < s.len() ==> s[position(s, c)] == c,
    decreases s.len(),
{
    if s.len() > 0 && s[0] != c {
        lemma_position(s.skip(1), c);
        assert forall|j: int| 0 <= j < position(s, c) implies s[j] != c by {
            if j > 0 {
                assert(s.skip(1)[j - 1] == s[j]);
            }
        }
    }
}

/// A place before which `s` has no `c`, and which holds one or is the end of
/// `s`, is the place of the first `c`.
pub proof fn lemma_position_is(s: Seq<char>, c: char, n: int)
    requires
        0 <= n <= s.len(),
        forall|j: int| 0 <= j < n ==> s[j] != c,
        n < s.len() ==> s[n] == c,
    ensures
        position(s, c) == n,
    decreases n,
{
    if n > 0 {
        assert(s[0] != c);
        assert forall|j: int| 0 <= j < n - 1 implies s.skip(1)[j] != c by {
            assert(s.skip(1)[j] == s[j + 1]);
        }
        lemma_position_is(s.skip(1), c, n - 1);
    }
}

/// A text without comments has no `#`.
pub proof fn lemma_uncommented_clean(s: Seq<char>)
    ensures
        forall|i: int| 0 <= i < uncommented(s).len() ==> #[trigger] uncommented(s)[i] != '#',
    decreases s.len(),
{
    if s.len() == 0 {
        assert(uncommented(s) == s);
    } else {
        if s[0] == '#' {
            lemma_position(s, '\n');
            if position(s, '\n') < s.len() {
                lemma_uncommented_clean(s.skip(position(s, '\n') + 1));
                assert(uncommented(s) == uncommented(s.skip(position(s, '\n') + 1)));
            } else {
                assert(uncommented(s) == Seq::<char>::empty());
            }
        } else {
            let tail = uncommented(s.skip(1));
            lemma_uncommented_clean(s.skip(1));
            assert forall|i: int| 0 <= i < uncommented(s).len() implies #[trigger] uncommented(
                s,
            )[i] != '#' by {
                if i > 0 {
                    assert(uncommented(s)[i] == tail[i - 1]);
                }
            }
        }
    }
}

/// Without the white space it begins with, `s` is what it was from some place
/// on, and begins with no white space.
pub proof fn lemma_trim_start(s: Seq<char>)
    ensures
        trim_start(s).len() <= s.len(),
        trim_start(s) == s.skip(s.len() - trim_start(s).len()),
        trim_start(s).len() > 0 ==> !is_space(trim_start(s)[0]),
    decreases s.len(),
{
    if s.len() > 0 && is_space(s[0]) {
        let t = s.skip(1);
        lemma_trim_start(t);
        assert(t.skip(t.len() - trim_start(t).len()) =~= s.skip(s.len() - trim_start(t).len()));
    } else {
        assert(s.skip(0) =~= s);
    }
}

/// Without the white space it ends with, `s` is what it was up to some place,
/// and ends with no white space.
pub proof fn lemma_trim_end(s: Seq<char>)
    ensures
        trim_end(s).len() <= s.len(),
        trim_end(s) == s.take(trim_end(s).len() as int),
        trim_end(s).len() > 0 ==> !is_space(trim_end(s).last()),
    decreases s.len(),
{
    if s.len() > 0 && is_space(s.last()) {
        let t = s.drop_last();
        lemma_trim_end(t);
        assert(t.take(trim_end(t).len() as int) =~= s.take(trim_end(t).len() as int));
    } else {
        assert(s.take(s.len() as int) =~= s);
    }
}

/// Without the white space around it, `s` is a part of what it was, from the
/// place that is given back on; it neither begins nor ends with white space,
/// and has none to take off.
pub proof fn lemma_trim(s: Seq<char>) -> (a: int)
    ensures
        0 <= a,
        a + trim(s).len() <= s.len(),
        trim(s) == s.subrange(a, a + trim(s).len()),
        trim(s).len() > 0 ==> !is_space(trim(s)[0]) && !is_space(trim(s).last()),
        trim(trim(s)) == trim(s),
{
    let u = trim_start(s);
    let t = trim_end(u);
    lemma_trim_start(s);
    lemma_trim_end(u);
    let a = s.len() - u.len();
    assert(t =~= s.subrange(a, a + t.len()));
    if t.len() > 0 {
        assert(t[0] == u[0]);
    }
    assert(trim_start(t) == t);
    assert(trim_end(t) == t);
    a
}

/// What a part of a text is: not empty, without white space around it,
/// without the separator `sep`, and without the character `bad`.
pub open spec fn tidy(p: Seq<char>, sep: char, bad: char) -> bool {
    &&& p.len() > 0
    &&& trim(p) == p
    &&& forall|j: int| 0 <= j < p.len() ==> #[trigger] p[j] != sep && p[j] != bad
}

/// Every part of a text is not empty, has no white space around it and no
/// separator in it, and no character that the text has not.
pub proof fn lemma_pieces_tidy(s: Seq<char>, sep: char, bad: char)
    requires
        forall|j: int| 0 <= j < s.len() ==> #[trigger] s[j] != bad,
    ensures
        forall|k: int| 0 <= k < pieces(s, sep).len() ==> tidy(#[trigger] pieces(s, sep)[k], sep, bad),
    decreases s.len(),
{
    let n = position(s, sep);
    lemma_position(s, sep);
    let head = trim(s.take(n));
    let a = lemma_trim(s.take(n));
    assert forall|j: int| 0 <= j < head.len() implies #[trigger] head[j] != sep && head[j]
        != bad by {
        assert(head[j] == s.take(n)[a + j]);
        assert(s.take(n)[a + j] == s[a + j]);
    }
    let rest = if 0 <= n < s.len() {
        pieces(s.skip(n + 1), sep)
    } else {
        Seq::empty()
    };
    if n < s.len() {
        let t = s.skip(n + 1);
        assert forall|j: int| 0 <= j < t.len() implies #[trigger] t[j] != bad by {
            assert(t[j] == s[n + 1 + j]);
        }
        lemma_pieces_tidy(t, sep, bad);
    }
    assert forall|k: int| 0 <= k < pieces(s, sep).len() implies tidy(
        #[trigger] pieces(s, sep)[k],
        sep,
        bad,
    ) by {
        if head.len() > 0 {
            if k > 0 {
                assert(pieces(s, sep)[k] == rest[k - 1]);
            }
        }
    }
}

/// Whether `c` is white space.
pub fn is_whitespace(c: char) -> (b: bool)
    ensures
        b == is_space(c),
{
    let n = c as u32;
    (0x09 <= n && n <= 0x0D) || n == 0x20 || n == 0x85 || n == 0xA0 || n == 0x1680 || (0x2000 <= n
        && n <= 0x200A) || n == 0x2028 || n == 0x2029 || n == 0x202F || n == 0x205F || n == 0x3000
}

/// The characters of `s`.
pub fn to_chars(s: &str) -> (v: Vec<char>)
    ensures
        v@ == s@,
{
    let mut v: Vec<char> = Vec::new();
    for c in it: s.chars()
        invariant
            v@ == it.seq().take(it.index() as int),
            it.seq() == s@,
    {
        v.push(c);
    }
    v
}

/// `std`'s `String::push`: the string has the character `c` behind what it
/// held.
#[verifier::external_body]
fn push_char(s: &mut String, c: char)
    ensures
        final(s)@ == old(s)@.push(c),
{
    s.push(c)
}

/// The string of the characters `v`.
pub fn text_of(v: &Vec<char>) -> (s: String)
    ensures
        s@ == v@,
{
    let mut s = String::new();
    let mut i: usize = 0;
    while i < v.len()
        invariant
            i <= v.len(),
            s@ == v@.take(i as int),
        decreases v.len() - i,
    {
        push_char(&mut s, v[i]);
        assert(v@.take(i as int).push(v@[i as int]) =~= v@.take(i + 1));
        i += 1;
    }
    assert(v@.take(v.len() as int) =~= v@);
    s
}

/// Whether `a` and `b` are the same text.
pub fn same(a: &Vec<char>, b: &Vec<char>) -> (r: bool)
    ensures
        r == (a@ == b@),
{
    if a.len() != b.len() {
        return false;
    }
    let mut i: usize = 0;
    while i < a.len()
        invariant
            i <= a.len() == b.len(),
            forall|j: int| 0 <= j < i ==> a@[j] == b@[j],
        decreases a.len() - i,
    {
        if a[i] != b[i] {
            return false;
        }
        i += 1;
    }
    assert(a@ =~= b@);
    true
}

/// Whether the text `a` is the word `w`.
pub fn is_word(a: &Vec<char>, w: &str) -> (r: bool)
    ensures
        r == (a@ == w@),
{
    let b = to_chars(w);
    same(a, &b)
}

/// The characters of `s` from `from` up to `to`.
pub fn slice(s: &Vec<char>, from: usize, to: usize) -> (r: Vec<char>)
    requires
        from <= to <= s.len(),
    ensures
        r@ == s@.subrange(from as int, to as int),
{
    let mut r: Vec<char> = Vec::new();
    let mut i: usize = from;
    while i < to
        invariant
            from <= i <= to <= s.len(),
            r@ == s@.subrange(from as int, i as int),
        decreases to - i,
    {
        r.push(s[i]);
        assert(s@.subrange(from as int, i as int).push(s@[i as int]) =~= s@.subrange(
            from as int,
            i + 1,
        ));
        i += 1;
    }
    r
}

/// The place of the first `c` in `s` from `from` on; the length of `s` where
/// none follows.
pub fn find(s: &Vec<char>, from: usize, c: char) -> (n: usize)
    requires
        from <= s.len(),
    ensures
        from <= n <= s.len(),
        n - from == position(s@.skip(from as int), c),
{
    let mut n: usize = from;
    while n < s.len() && s[n] != c
        invariant
            from <= n <= s.len(),
            forall|j: int| from <= j < n ==> s@[j] != c,
        decreases s.len() - n,
    {
        n += 1;
    }
    proof {
        lemma_position_is(s@.skip(from as int), c, n - from);
    }
    n
}

/// The bounds of the part of `s` between `from` and `to` that is left when
/// the white space around it is taken off.
pub fn trim_bounds(s: &Vec<char>, from: usize, to: usize) -> (r: (usize, usize))
    requires
        from <= to <= s.len(),
    ensures
        from <= r.0 <= r.1 <= to,
        s@.subrange(r.0 as int, r.1 as int) == trim(s@.subrange(from as int, to as int)),
{
    let mut a: usize = from;
    while a < to && is_whitespace(s[a])
        invariant
            from <= a <= to <= s.len(),
            trim_start(s@.subrange(from as int, to as int)) == trim_start(
                s@.subrange(a as int, to as int),
            ),
        decreases to - a,
    {
        assert(s@.subrange(a as int, to as int).skip(1) =~= s@.subrange(a + 1, to as int));
        a += 1;
    }
    let mut b: usize = to;
    while a < b && is_whitespace(s[b - 1])
        invariant
            a <= b <= to <= s.len(),
            trim_end(s@.subrange(a as int, to as int)) == trim_end(s@.subrange(a as int, b as int)),
        decreases b - a,
    {
        assert(s@.subrange(a as int, b as int).drop_last() =~= s@.subrange(a as int, b - 1));
        b -= 1;
    }
    (a, b)
}

/// Cuts `s` at the separators `sep`, takes the white space off each part, and
/// leaves out the parts that are empty then.
pub fn cut(s: &Vec<char>, sep: char) -> (out: Vec<Vec<char>>)
    ensures
        views(out@) == pieces(s@, sep),
{
    let mut out: Vec<Vec<char>> = Vec::new();
    let mut pos: usize = 0;
    let mut done = false;
    proof {
        assert(s@.skip(0) =~= s@);
        assert(views(out@) + pieces(s@, sep) =~= pieces(s@, sep));
    }
    while !done
        invariant
            pos <= s.len(),
            !done ==> views(out@) + pieces(s@.skip(pos as int), sep) == pieces(s@, sep),
            done ==> views(out@) == pieces(s@, sep),
        decreases s.len() - pos + (if done { 0int } else { 1int }),
    {
        let ghost rest = s@.skip(pos as int);
        let ghost before = views(out@);
        let end = find(s, pos, sep);
        let (a, b) = trim_bounds(s, pos, end);
        proof {
            assert(rest.take(end - pos) =~= s@.subrange(pos as int, end as int));
        }
        if a < b {
            let part = slice(s, a, b);
            out.push(part);
            proof {
                assert(views(out@) =~= before + seq![part@]);
            }
        }
        if end < s.len() {
            proof {
                assert(rest.skip(end - pos + 1) =~= s@.skip(end + 1));
                let tail = pieces(s@.skip(end + 1), sep);
                if a < b {
                    let head = trim(rest.take(end - pos));
                    assert((before + seq![head]) + tail =~= before + (seq![head] + tail));
                }
            }
            pos = end + 1;
        } else {
            proof {
                let head = trim(rest.take(end - pos));
                if a < b {
                    assert(before + (seq![head] + Seq::<Seq<char>>::empty()) =~= before + seq![head]);
                } else {
                    assert(before + Seq::<Seq<char>>::empty() =~= before);
                }
            }
            done = true;
        }
    }
    out
}

/// Takes the comments out of `s`.
pub fn strip_comments(s: &Vec<char>) -> (out: Vec<char>)
    ensures
        out@ == uncommented(s@),
{
    let mut out: Vec<char> = Vec::new();
    let mut pos: usize = 0;
    proof {
        assert(s@.skip(0) =~= s@);
        assert(out@ + uncommented(s@) =~= uncommented(s@));
    }
    while pos < s.len()
        invariant
            pos <= s.len(),
            out@ + uncommented(s@.skip(pos as int)) == uncommented(s@),
        decreases s.len() - pos,
    {
        let ghost rest = s@.skip(pos as int);
        let ghost before = out@;
        if s[pos] == '#' {
            let end = find(s, pos, '\n');
            if end < s.len() {
                proof {
                    assert(rest.skip(end - pos + 1) =~= s@.skip(end + 1));
                }
                pos = end + 1;
            } else {
                proof {
                    assert(uncommented(rest) == Seq::<char>::empty());
                    assert(uncommented(s@.skip(s.len() as int)) =~= Seq::<char>::empty());
                }
                pos = s.len();
            }
        } else {
            proof {
                assert(rest.skip(1) =~= s@.skip(pos + 1));
                assert((before + seq![rest[0]]) + uncommented(rest.skip(1)) =~= before + (seq![
                    rest[0],
                ] + uncommented(rest.skip(1))));
            }
            out.push(s[pos]);
            pos += 1;
        }
    }
    proof {
        assert(s@.skip(s.len() as int) =~= Seq::<char>::empty());
        assert(out@ + Seq::<char>::empty() =~= out@);
    }
    out
}

} // verus!
